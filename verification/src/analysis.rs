//! Per-slice analysis: mutant outcomes, per-class mutation tallies and
//! the contribution of a theorem to killing mutants.
use vstd::prelude::*;
use crate::mutation::{MutantCandidate, MutantClass};
use crate::tightness::{MutantStatus, TightnessCounts};

verus! {

/// What became of a mutant of the neighborhood.  `Equivalent` is
/// reserved: a mutant that no implementation kills is `Alive`.
#[derive(Debug, Clone, Copy, PartialEq, Eq, Structural)]
pub enum MutantOutcome {
    /// Some implementation killed it.
    Killed,
    /// Every implementation let it live.
    Alive,
    /// Provably equivalent to the spec on the models enumerated (never
    /// set at present).
    Equivalent,
}

/// How much a theorem contributes to killing mutants.
#[derive(Debug, Clone, Copy, PartialEq, Eq, Structural)]
pub enum ContributionStrength {
    /// Unique kill rate above one half.
    High,
    /// Unique kill rate in (0.1, 0.5].
    Medium,
    /// Unique kill rate in (0, 0.1].
    Low,
    /// The theorem kills no mutant.
    NoKills,
}

/// The strength as an upper-case label.
pub fn strength_label(s: ContributionStrength) -> (r: &'static str)
    ensures
        r@ == (match s {
            ContributionStrength::High => "HIGH"@,
            ContributionStrength::Medium => "MEDIUM"@,
            ContributionStrength::Low => "LOW"@,
            ContributionStrength::NoKills => "NONE"@,
        }),
{
    match s {
        ContributionStrength::High => "HIGH",
        ContributionStrength::Medium => "MEDIUM",
        ContributionStrength::Low => "LOW",
        ContributionStrength::NoKills => "NONE",
    }
}

/// The outcome of a mutant, from whether it was killed.
pub fn outcome_of(killed: bool) -> (r: MutantOutcome)
    ensures
        r == (if killed { MutantOutcome::Killed } else { MutantOutcome::Alive }),
{
    if killed {
        MutantOutcome::Killed
    } else {
        MutantOutcome::Alive
    }
}

/// The strength of a theorem that kills `total_kills` mutants,
/// `unique_kills` of which the supporting axioms alone do not kill: the
/// unique kill rate `unique_kills / total_kills` is compared with one half
/// and one tenth, exactly.
pub open spec fn contribution_class(total_kills: nat, unique_kills: nat) -> ContributionStrength {
    if total_kills == 0 {
        ContributionStrength::NoKills
    } else if 2 * unique_kills > total_kills {
        ContributionStrength::High
    } else if 10 * unique_kills > total_kills {
        ContributionStrength::Medium
    } else {
        ContributionStrength::Low
    }
}

/// Classify a contribution by its kill counts.
pub fn classify_contribution(total_kills: usize, unique_kills: usize) -> (r: ContributionStrength)
    ensures
        r == contribution_class(total_kills as nat, unique_kills as nat),
{
    if total_kills == 0 {
        return ContributionStrength::NoKills;
    }
    let t = total_kills as u128;
    let u = unique_kills as u128;
    if 2 * u > t {
        ContributionStrength::High
    } else if 10 * u > t {
        ContributionStrength::Medium
    } else {
        ContributionStrength::Low
    }
}

/// Some status among the first `n` of `st` kills mutant `x`.
pub open spec fn killed_before(st: Seq<MutantStatus>, n: int, x: usize) -> bool {
    exists|k: int| 0 <= k < n && (#[trigger] st[k]).killed && st[k].mutant_index == x
}

/// The indices of the mutants that `st` records as killed.
pub open spec fn killed_set(st: Seq<MutantStatus>) -> Set<usize> {
    Set::new(|x: usize| killed_before(st, st.len() as int, x))
}

fn contains_index(v: &Vec<usize>, x: usize) -> (r: bool)
    ensures
        r == v@.contains(x),
{
    let mut i: usize = 0;
    while i < v.len()
        invariant
            i <= v@.len(),
            forall|j: int| 0 <= j < i ==> v@[j] != x,
        decreases v.len() - i,
    {
        if v[i] == x {
            return true;
        }
        i = i + 1;
    }
    false
}

proof fn lemma_push_fresh(s: Seq<usize>, x: usize)
    requires
        s.no_duplicates(),
        !s.contains(x),
    ensures
        s.push(x).no_duplicates(),
        forall|y: usize| #[trigger] s.push(x).contains(y) == (s.contains(y) || y == x),
{
    let t = s.push(x);
    assert forall|a: int, b: int| 0 <= a < t.len() && 0 <= b < t.len() && a != b implies t[a] != t[b] by {
        if a < s.len() && b < s.len() {
            assert(t[a] == s[a] && t[b] == s[b]);
        } else if a < s.len() {
            assert(t[a] == s[a]);
        } else if b < s.len() {
            assert(t[b] == s[b]);
        }
    }
    assert forall|y: usize| #[trigger] t.contains(y) == (s.contains(y) || y == x) by {
        if s.contains(y) {
            let k = choose|k: int| 0 <= k < s.len() && s[k] == y;
            assert(t[k] == y);
        }
        if y == x {
            assert(t[s.len() as int] == y);
        }
        if t.contains(y) {
            let k = choose|k: int| 0 <= k < t.len() && t[k] == y;
            if k < s.len() {
                assert(s[k] == y);
            }
        }
    }
}

proof fn lemma_killed_before_step(st: Seq<MutantStatus>, i: int, x: usize)
    requires
        0 <= i < st.len(),
    ensures
        killed_before(st, i + 1, x) == (killed_before(st, i, x) || (st[i].killed && st[i].mutant_index == x)),
{
    if killed_before(st, i + 1, x) && !(st[i].killed && st[i].mutant_index == x) {
        let k = choose|k: int| 0 <= k < i + 1 && (#[trigger] st[k]).killed && st[k].mutant_index == x;
        assert(k != i);
        assert(killed_before(st, i, x));
    }
    if killed_before(st, i, x) {
        let k = choose|k: int| 0 <= k < i && (#[trigger] st[k]).killed && st[k].mutant_index == x;
        assert(killed_before(st, i + 1, x));
    }
    if st[i].killed && st[i].mutant_index == x {
        assert(killed_before(st, i + 1, x));
    }
}

/// The killed mutant indices of `st`, each once.
fn killed_indices(st: &Vec<MutantStatus>) -> (r: Vec<usize>)
    ensures
        r@.no_duplicates(),
        r@.to_set() == killed_set(st@),
{
    let mut out: Vec<usize> = Vec::new();
    let mut i: usize = 0;
    while i < st.len()
        invariant
            i <= st@.len(),
            out@.no_duplicates(),
            forall|x: usize| #[trigger] out@.contains(x) == killed_before(st@, i as int, x),
        decreases st.len() - i,
    {
        let ghost before = out@;
        if st[i].killed {
            let m = st[i].mutant_index;
            if !contains_index(&out, m) {
                out.push(m);
                proof {
                    lemma_push_fresh(before, m);
                }
            }
        }
        proof {
            assert forall|x: usize| #[trigger] out@.contains(x) == killed_before(st@, i + 1, x) by {
                lemma_killed_before_step(st@, i as int, x);
                assert(before.contains(x) == killed_before(st@, i as int, x));
            }
        }
        i = i + 1;
    }
    proof {
        assert(out@.to_set() =~= killed_set(st@));
    }
    out
}

/// How much a theorem contributes to the tightness of its slice, against
/// a baseline evaluation with the supporting axioms alone.  The rates
/// (kill rate, unique kill rate, the tightness score) are quotients of
/// these counts.
#[derive(Debug, Clone)]
pub struct TheoremContribution {
    /// The theorem.
    pub theorem_name: String,
    /// Mutants killed by the full slice.
    pub total_kills: usize,
    /// Mutants killed by the full slice but not by the baseline.
    pub unique_kills: usize,
    /// Mutants killed by both.
    pub shared_kills: usize,
    /// Rating derived from the unique kill rate.
    pub contribution_strength: ContributionStrength,
}

impl TheoremContribution {
    /// Compare the killed sets of the full evaluation and of the baseline.
    pub fn from_kill_sets(theorem_name: &str, full: &TightnessCounts, baseline: &TightnessCounts) -> (r: Self)
        ensures
            r.theorem_name@ == theorem_name@,
            r.total_kills == killed_set(full.mutant_statuses@).len(),
            r.unique_kills == killed_set(full.mutant_statuses@).difference(killed_set(baseline.mutant_statuses@)).len(),
            r.shared_kills == killed_set(full.mutant_statuses@).intersect(killed_set(baseline.mutant_statuses@)).len(),
            r.contribution_strength == contribution_class(r.total_kills as nat, r.unique_kills as nat),
    {
        let fk = killed_indices(&full.mutant_statuses);
        let bk = killed_indices(&baseline.mutant_statuses);
        let ghost big_b = killed_set(baseline.mutant_statuses@);
        let mut unique: usize = 0;
        let mut shared: usize = 0;
        let ghost mut uq: Seq<usize> = seq![];
        let ghost mut sh: Seq<usize> = seq![];
        let mut j: usize = 0;
        while j < fk.len()
            invariant
                j <= fk@.len(),
                fk@.no_duplicates(),
                bk@.to_set() == big_b,
                uq.no_duplicates(),
                sh.no_duplicates(),
                unique == uq.len(),
                shared == sh.len(),
                unique + shared == j,
                forall|x: usize| #[trigger] uq.contains(x) == (fk@.take(j as int).contains(x) && !big_b.contains(x)),
                forall|x: usize| #[trigger] sh.contains(x) == (fk@.take(j as int).contains(x) && big_b.contains(x)),
            decreases fk.len() - j,
        {
            let x = fk[j];
            proof {
                assert(!fk@.take(j as int).contains(x)) by {
                    if fk@.take(j as int).contains(x) {
                        let q = choose|q: int| 0 <= q < j && fk@.take(j as int)[q] == x;
                        assert(fk@[q] == fk@[j as int]);
                    }
                }
                assert(fk@.take(j + 1) =~= fk@.take(j as int).push(x));
                assert(bk@.to_set().contains(x) == bk@.contains(x));
                assert(fk@.take(j as int).no_duplicates());
            }
            if contains_index(&bk, x) {
                proof {
                    assert(!sh.contains(x));
                    lemma_push_fresh(sh, x);
                    sh = sh.push(x);
                }
                shared = shared + 1;
            } else {
                proof {
                    assert(!uq.contains(x));
                    lemma_push_fresh(uq, x);
                    uq = uq.push(x);
                }
                unique = unique + 1;
            }
            proof {
                assert forall|y: usize| #[trigger] fk@.take(j + 1).contains(y) == (fk@.take(j as int).contains(y) || y == x) by {
                    lemma_push_fresh(fk@.take(j as int), x);
                }
            }
            j = j + 1;
        }
        let ghost big_f = killed_set(full.mutant_statuses@);
        proof {
            assert(fk@.take(j as int) =~= fk@);
            assert(uq.to_set() =~= big_f.difference(big_b));
            assert(sh.to_set() =~= big_f.intersect(big_b));
            uq.unique_seq_to_set();
            sh.unique_seq_to_set();
            fk@.unique_seq_to_set();
        }
        let total = fk.len();
        TheoremContribution {
            theorem_name: theorem_name.to_owned(),
            total_kills: total,
            unique_kills: unique,
            shared_kills: shared,
            contribution_strength: classify_contribution(total, unique),
        }
    }
}

/// The class of the mutant that `st` speaks of, where `mutants` has it.
pub open spec fn class_of(mutants: Seq<MutantCandidate>, st: MutantStatus) -> Option<MutantClass> {
    if st.mutant_index < mutants.len() {
        Some(mutants[st.mutant_index as int].class)
    } else {
        None
    }
}

/// Number of statuses of `st` about a mutant of class `c` (only the
/// killed ones when `killed_only`).
pub open spec fn tally(mutants: Seq<MutantCandidate>, st: Seq<MutantStatus>, c: MutantClass, killed_only: bool) -> nat
    decreases st.len(),
{
    if st.len() == 0 {
        0
    } else {
        tally(mutants, st.drop_last(), c, killed_only) + (if class_of(mutants, st.last()) == Some(c) && (
        !killed_only || st.last().killed) {
            1nat
        } else {
            0nat
        })
    }
}

/// `k1 / t1 < k2 / t2`, for positive `t1` and `t2`.
pub open spec fn rate_below(k1: nat, t1: nat, k2: nat, t2: nat) -> bool {
    k1 * t2 < k2 * t1
}

/// Per-class tallies of the mutants of a neighborhood: how many of each
/// class were evaluated and how many of them were killed.  A class's kill
/// rate is `killed / total` (0 for an empty class).
#[derive(Debug, Clone, Copy, PartialEq, Eq)]
pub struct MutationTaxonomy {
    /// Weakening mutants evaluated.
    pub weakening_total: usize,
    /// Weakening mutants killed.
    pub weakening_killed: usize,
    /// Strengthening mutants evaluated.
    pub strengthening_total: usize,
    /// Strengthening mutants killed.
    pub strengthening_killed: usize,
    /// Replacement mutants evaluated.
    pub replacement_total: usize,
    /// Replacement mutants killed.
    pub replacement_killed: usize,
}

impl Default for MutationTaxonomy {
    /// All tallies zero.
    fn default() -> (r: Self)
        ensures
            r.weakening_total == 0 && r.weakening_killed == 0,
            r.strengthening_total == 0 && r.strengthening_killed == 0,
            r.replacement_total == 0 && r.replacement_killed == 0,
    {
        MutationTaxonomy {
            weakening_total: 0,
            weakening_killed: 0,
            strengthening_total: 0,
            strengthening_killed: 0,
            replacement_total: 0,
            replacement_killed: 0,
        }
    }
}

/// The class among those with at least one mutant whose kill rate is
/// least, the first such in the order weakening, strengthening,
/// replacement; `None` when there are no mutants.
pub open spec fn weakest(t: MutationTaxonomy) -> Option<MutantClass> {
    let (wk, wt) = (t.weakening_killed as nat, t.weakening_total as nat);
    let (sk, st) = (t.strengthening_killed as nat, t.strengthening_total as nat);
    let (rk, rt) = (t.replacement_killed as nat, t.replacement_total as nat);
    if wt > 0 && (st > 0 ==> !rate_below(sk, st, wk, wt)) && (rt > 0 ==> !rate_below(rk, rt, wk, wt)) {
        Some(MutantClass::Weakening)
    } else if st > 0 && (wt > 0 ==> rate_below(sk, st, wk, wt)) && (rt > 0 ==> !rate_below(rk, rt, sk, st)) {
        Some(MutantClass::Strengthening)
    } else if rt > 0 && (wt > 0 ==> rate_below(rk, rt, wk, wt)) && (st > 0 ==> rate_below(rk, rt, sk, st)) {
        Some(MutantClass::Replacement)
    } else {
        None
    }
}

fn below(k1: usize, t1: usize, k2: usize, t2: usize) -> (r: bool)
    ensures
        r == rate_below(k1 as nat, t1 as nat, k2 as nat, t2 as nat),
{
    let a = k1 as u128;
    let b = t2 as u128;
    let c = k2 as u128;
    let d = t1 as u128;
    assert(a * b <= 0xffff_ffff_ffff_ffffu128 * 0xffff_ffff_ffff_ffffu128) by (nonlinear_arith)
        requires
            a <= 0xffff_ffff_ffff_ffffu128,
            b <= 0xffff_ffff_ffff_ffffu128,
    ;
    assert(c * d <= 0xffff_ffff_ffff_ffffu128 * 0xffff_ffff_ffff_ffffu128) by (nonlinear_arith)
        requires
            c <= 0xffff_ffff_ffff_ffffu128,
            d <= 0xffff_ffff_ffff_ffffu128,
    ;
    a * b < c * d
}

proof fn lemma_rate_trans(k1: nat, t1: nat, k2: nat, t2: nat, k3: nat, t3: nat)
    requires
        t1 > 0,
        t2 > 0,
        t3 > 0,
    ensures
        rate_below(k1, t1, k2, t2) && rate_below(k2, t2, k3, t3) ==> rate_below(k1, t1, k3, t3),
        !rate_below(k2, t2, k1, t1) && !rate_below(k3, t3, k2, t2) ==> !rate_below(k3, t3, k1, t1),
        rate_below(k1, t1, k2, t2) && !rate_below(k3, t3, k2, t2) ==> rate_below(k1, t1, k3, t3),
        !rate_below(k2, t2, k1, t1) && rate_below(k2, t2, k3, t3) ==> rate_below(k1, t1, k3, t3)
            || !rate_below(k3, t3, k1, t1),
{
    assert(rate_below(k1, t1, k2, t2) && rate_below(k2, t2, k3, t3) ==> rate_below(k1, t1, k3, t3)) by (nonlinear_arith)
        requires
            t1 > 0,
            t2 > 0,
            t3 > 0,
    {
        if k1 * t2 < k2 * t1 && k2 * t3 < k3 * t2 {
            assert(k1 * t2 * t3 < k2 * t1 * t3);
            assert(k2 * t3 * t1 < k3 * t2 * t1);
            assert(k1 * t3 * t2 < k3 * t1 * t2);
        }
    }
    assert(!rate_below(k2, t2, k1, t1) && !rate_below(k3, t3, k2, t2) ==> !rate_below(k3, t3, k1, t1)) by (nonlinear_arith)
        requires
            t1 > 0,
            t2 > 0,
            t3 > 0,
    {
        if k2 * t1 >= k1 * t2 && k3 * t2 >= k2 * t3 {
            assert(k2 * t1 * t3 >= k1 * t2 * t3);
            assert(k3 * t2 * t1 >= k2 * t3 * t1);
            assert(k3 * t1 * t2 >= k1 * t3 * t2);
        }
    }
    assert(rate_below(k1, t1, k2, t2) && !rate_below(k3, t3, k2, t2) ==> rate_below(k1, t1, k3, t3)) by (nonlinear_arith)
        requires
            t1 > 0,
            t2 > 0,
            t3 > 0,
    {
        if k1 * t2 < k2 * t1 && k3 * t2 >= k2 * t3 {
            assert(k1 * t2 * t3 < k2 * t1 * t3);
            assert(k3 * t2 * t1 >= k2 * t3 * t1);
            assert(k1 * t3 * t2 < k3 * t1 * t2);
        }
    }
}

impl MutationTaxonomy {
    /// Tally the evaluated mutants by class; a status whose mutant index
    /// is out of range of `mutants` is not counted.
    pub fn compute(mutants: &[MutantCandidate], tightness: &TightnessCounts) -> (r: Self)
        ensures
            r.weakening_total == tally(mutants@, tightness.mutant_statuses@, MutantClass::Weakening, false),
            r.weakening_killed == tally(mutants@, tightness.mutant_statuses@, MutantClass::Weakening, true),
            r.strengthening_total == tally(mutants@, tightness.mutant_statuses@, MutantClass::Strengthening, false),
            r.strengthening_killed == tally(mutants@, tightness.mutant_statuses@, MutantClass::Strengthening, true),
            r.replacement_total == tally(mutants@, tightness.mutant_statuses@, MutantClass::Replacement, false),
            r.replacement_killed == tally(mutants@, tightness.mutant_statuses@, MutantClass::Replacement, true),
    {
        let st = &tightness.mutant_statuses;
        let mut tax = MutationTaxonomy::default();
        let mut i: usize = 0;
        while i < st.len()
            invariant
                i <= st@.len(),
                tax.weakening_total == tally(mutants@, st@.take(i as int), MutantClass::Weakening, false),
                tax.weakening_killed == tally(mutants@, st@.take(i as int), MutantClass::Weakening, true),
                tax.strengthening_total == tally(mutants@, st@.take(i as int), MutantClass::Strengthening, false),
                tax.strengthening_killed == tally(mutants@, st@.take(i as int), MutantClass::Strengthening, true),
                tax.replacement_total == tally(mutants@, st@.take(i as int), MutantClass::Replacement, false),
                tax.replacement_killed == tally(mutants@, st@.take(i as int), MutantClass::Replacement, true),
                tax.weakening_total + tax.strengthening_total + tax.replacement_total <= i,
                tax.weakening_killed <= tax.weakening_total,
                tax.strengthening_killed <= tax.strengthening_total,
                tax.replacement_killed <= tax.replacement_total,
            decreases st.len() - i,
        {
            proof {
                assert(st@.take(i + 1).drop_last() =~= st@.take(i as int));
                assert(st@.take(i + 1).last() == st@[i as int]);
            }
            let idx = st[i].mutant_index;
            if idx < mutants.len() {
                let killed = st[i].killed;
                match mutants[idx].class {
                    MutantClass::Weakening => {
                        tax.weakening_total = tax.weakening_total + 1;
                        if killed {
                            tax.weakening_killed = tax.weakening_killed + 1;
                        }
                    },
                    MutantClass::Strengthening => {
                        tax.strengthening_total = tax.strengthening_total + 1;
                        if killed {
                            tax.strengthening_killed = tax.strengthening_killed + 1;
                        }
                    },
                    MutantClass::Replacement => {
                        tax.replacement_total = tax.replacement_total + 1;
                        if killed {
                            tax.replacement_killed = tax.replacement_killed + 1;
                        }
                    },
                }
            }
            i = i + 1;
        }
        proof {
            assert(st@.take(i as int) =~= st@);
        }
        tax
    }

    /// Add the tallies of `other` to these.
    pub fn merge(&mut self, other: &Self)
        requires
            old(self).weakening_total + other.weakening_total <= usize::MAX,
            old(self).weakening_killed + other.weakening_killed <= usize::MAX,
            old(self).strengthening_total + other.strengthening_total <= usize::MAX,
            old(self).strengthening_killed + other.strengthening_killed <= usize::MAX,
            old(self).replacement_total + other.replacement_total <= usize::MAX,
            old(self).replacement_killed + other.replacement_killed <= usize::MAX,
        ensures
            final(self).weakening_total == old(self).weakening_total + other.weakening_total,
            final(self).weakening_killed == old(self).weakening_killed + other.weakening_killed,
            final(self).strengthening_total == old(self).strengthening_total + other.strengthening_total,
            final(self).strengthening_killed == old(self).strengthening_killed + other.strengthening_killed,
            final(self).replacement_total == old(self).replacement_total + other.replacement_total,
            final(self).replacement_killed == old(self).replacement_killed + other.replacement_killed,
    {
        self.weakening_total = self.weakening_total + other.weakening_total;
        self.weakening_killed = self.weakening_killed + other.weakening_killed;
        self.strengthening_total = self.strengthening_total + other.strengthening_total;
        self.strengthening_killed = self.strengthening_killed + other.strengthening_killed;
        self.replacement_total = self.replacement_total + other.replacement_total;
        self.replacement_killed = self.replacement_killed + other.replacement_killed;
    }

    /// The class the specification is weakest against: least kill rate
    /// among the classes with mutants, the earlier class on a tie.
    pub fn weakest_class(&self) -> (r: Option<MutantClass>)
        ensures
            r == weakest(*self),
    {
        let (wk, wt) = (self.weakening_killed, self.weakening_total);
        let (sk, st) = (self.strengthening_killed, self.strengthening_total);
        let (rk, rt) = (self.replacement_killed, self.replacement_total);
        let mut best: Option<(MutantClass, usize, usize)> = None;
        if wt > 0 {
            best = Some((MutantClass::Weakening, wk, wt));
        }
        if st > 0 {
            best = match best {
                None => Some((MutantClass::Strengthening, sk, st)),
                Some((c, k, t)) => if below(sk, st, k, t) {
                    Some((MutantClass::Strengthening, sk, st))
                } else {
                    Some((c, k, t))
                },
            };
        }
        if rt > 0 {
            best = match best {
                None => Some((MutantClass::Replacement, rk, rt)),
                Some((c, k, t)) => if below(rk, rt, k, t) {
                    Some((MutantClass::Replacement, rk, rt))
                } else {
                    Some((c, k, t))
                },
            };
        }
        proof {
            if wt > 0 && st > 0 && rt > 0 {
                lemma_rate_trans(wk as nat, wt as nat, sk as nat, st as nat, rk as nat, rt as nat);
                lemma_rate_trans(rk as nat, rt as nat, sk as nat, st as nat, wk as nat, wt as nat);
                lemma_rate_trans(sk as nat, st as nat, wk as nat, wt as nat, rk as nat, rt as nat);
                lemma_rate_trans(rk as nat, rt as nat, wk as nat, wt as nat, sk as nat, st as nat);
                lemma_rate_trans(wk as nat, wt as nat, rk as nat, rt as nat, sk as nat, st as nat);
                lemma_rate_trans(sk as nat, st as nat, rk as nat, rt as nat, wk as nat, wt as nat);
            }
        }
        match best {
            None => None,
            Some((c, _, _)) => Some(c),
        }
    }
}

/// The words naming what a class of mutation does to a specification.
pub fn class_phrase(c: MutantClass) -> (r: &'static str)
    ensures
        r@ == (match c {
            MutantClass::Weakening => "constraint removal"@,
            MutantClass::Strengthening => "constraint addition"@,
            MutantClass::Replacement => "predicate replacement"@,
        }),
{
    match c {
        MutantClass::Weakening => "constraint removal",
        MutantClass::Strengthening => "constraint addition",
        MutantClass::Replacement => "predicate replacement",
    }
}

} // verus!
