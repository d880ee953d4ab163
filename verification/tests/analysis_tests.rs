use specmut::analysis::{
    class_phrase, classify_contribution, outcome_of, strength_label, ContributionStrength, MutantOutcome,
    MutationTaxonomy, TheoremContribution,
};
use specmut::compare::truncate;
use specmut::config::{default_format, default_model_bound, default_quantifier_rank, default_seed};
use specmut::formula::{Formula, Term};
use specmut::lattice::SpecElement;
use specmut::mutation::{MutantCandidate, MutantClass};
use specmut::signature::{RelationSymbol, SortSymbol};
use specmut::tightness::{MutantStatus, TightnessCounts};

fn unary_rel(name: &str) -> RelationSymbol {
    RelationSymbol::new(name, vec![SortSymbol::new("S")])
}

fn make_mutant(idx: usize, class: MutantClass) -> MutantCandidate {
    MutantCandidate {
        spec: SpecElement::from_axioms(vec![Formula::Top]),
        class,
        perturbed_component: idx,
        original_predicate: Some(Formula::Atom { relation: unary_rel("P"), args: vec![Term::Var(0)] }),
        replacement_predicate: None,
    }
}

fn make_status(idx: usize, killed: bool) -> MutantStatus {
    MutantStatus {
        mutant_index: idx,
        killed,
        killing_implementations: if killed { vec![0] } else { vec![] },
        direction: if killed { Some(true) } else { None },
        witness: None,
    }
}

fn tight_from(statuses: Vec<MutantStatus>) -> TightnessCounts {
    let killed = statuses.iter().filter(|s| s.killed).count();
    let n = statuses.len();
    TightnessCounts { neighborhood_size: n, killed_count: killed, alive_count: n - killed, mutant_statuses: statuses }
}

fn rate(killed: usize, total: usize) -> f64 {
    if total == 0 {
        0.0
    } else {
        killed as f64 / total as f64
    }
}

#[test]
fn taxonomy_merge_accumulates_totals() {
    let mut a = MutationTaxonomy {
        weakening_total: 4,
        weakening_killed: 2,
        strengthening_total: 2,
        strengthening_killed: 2,
        replacement_total: 1,
        replacement_killed: 0,
    };
    let b = a;
    a.merge(&b);
    assert_eq!(a.weakening_total, 8);
    assert_eq!(a.weakening_killed, 4);
    assert!((rate(a.weakening_killed, a.weakening_total) - 0.5).abs() < 1e-9);
}

#[test]
fn contribution_unique_kills_zero_when_baseline_matches_full() {
    let full = tight_from(vec![make_status(0, true), make_status(1, true)]);
    let baseline = tight_from(vec![make_status(0, true), make_status(1, true)]);
    let c = TheoremContribution::from_kill_sets("t", &full, &baseline);
    assert_eq!(c.total_kills, 2);
    assert_eq!(c.unique_kills, 0);
    assert_eq!(c.shared_kills, 2);
    assert_eq!(c.contribution_strength, ContributionStrength::Low);
}

#[test]
fn contribution_strength_none_when_no_kills() {
    let full = tight_from(vec![make_status(0, false)]);
    let baseline = tight_from(vec![make_status(0, false)]);
    let c = TheoremContribution::from_kill_sets("t", &full, &baseline);
    assert_eq!(c.total_kills, 0);
    assert_eq!(c.contribution_strength, ContributionStrength::NoKills);
}

#[test]
fn contribution_strength_high_when_unique_majority() {
    let full = tight_from(vec![make_status(0, true), make_status(1, true), make_status(2, true)]);
    let baseline = tight_from(vec![make_status(0, false), make_status(1, false), make_status(2, false)]);
    let c = TheoremContribution::from_kill_sets("t", &full, &baseline);
    assert_eq!(c.unique_kills, 3);
    assert_eq!(c.contribution_strength, ContributionStrength::High);
}

#[test]
fn test_taxonomy_sums_equal_neighborhood_size() {
    let muts = vec![
        make_mutant(0, MutantClass::Weakening),
        make_mutant(1, MutantClass::Strengthening),
        make_mutant(2, MutantClass::Replacement),
        make_mutant(3, MutantClass::Replacement),
    ];
    let tight = tight_from(vec![make_status(0, true), make_status(1, true), make_status(2, false), make_status(3, true)]);
    let tax = MutationTaxonomy::compute(&muts, &tight);
    let sum = tax.weakening_total + tax.strengthening_total + tax.replacement_total;
    assert_eq!(sum, tight.neighborhood_size);
}

#[test]
fn test_taxonomy_rates_bounded_zero_to_one() {
    let muts = vec![make_mutant(0, MutantClass::Weakening), make_mutant(1, MutantClass::Strengthening)];
    let tight = tight_from(vec![make_status(0, true), make_status(1, false)]);
    let tax = MutationTaxonomy::compute(&muts, &tight);
    for rate in [
        rate(tax.weakening_killed, tax.weakening_total),
        rate(tax.strengthening_killed, tax.strengthening_total),
        rate(tax.replacement_killed, tax.replacement_total),
    ] {
        assert!((0.0..=1.0).contains(&rate), "kill rate out of bounds: {rate}");
    }
}

#[test]
fn test_contribution_unique_kills_subtract_baseline() {
    let full = tight_from(vec![make_status(0, true), make_status(1, true), make_status(2, true)]);
    let baseline = tight_from(vec![make_status(0, true), make_status(1, false), make_status(2, false)]);
    let c = TheoremContribution::from_kill_sets("T1", &full, &baseline);
    assert_eq!(c.total_kills, 3);
    assert_eq!(c.unique_kills, 2);
    assert_eq!(c.shared_kills, 1);
}

#[test]
fn contribution_counts_each_mutant_once() {
    let full = tight_from(vec![make_status(4, true), make_status(4, true), make_status(7, true), make_status(9, false)]);
    let baseline = tight_from(vec![make_status(7, true), make_status(4, false)]);
    let c = TheoremContribution::from_kill_sets("dup", &full, &baseline);
    assert_eq!(c.theorem_name, "dup");
    assert_eq!(c.total_kills, 2);
    assert_eq!(c.unique_kills, 1);
    assert_eq!(c.shared_kills, 1);
    assert_eq!(c.contribution_strength, ContributionStrength::Medium);
}

#[test]
fn classify_boundaries_by_counts() {
    assert_eq!(classify_contribution(0, 0), ContributionStrength::NoKills);
    assert_eq!(classify_contribution(5, 3), ContributionStrength::High);
    assert_eq!(classify_contribution(10, 5), ContributionStrength::Medium);
    assert_eq!(classify_contribution(100, 11), ContributionStrength::Medium);
    assert_eq!(classify_contribution(10, 1), ContributionStrength::Low);
    assert_eq!(classify_contribution(20, 1), ContributionStrength::Low);
    assert_eq!(strength_label(classify_contribution(5, 3)), "HIGH");
}

#[test]
fn taxonomy_skips_unknown_mutants() {
    let muts = vec![make_mutant(0, MutantClass::Weakening)];
    let tight = tight_from(vec![make_status(0, true), make_status(5, true)]);
    let tax = MutationTaxonomy::compute(&muts, &tight);
    assert_eq!(tax.weakening_total, 1);
    assert_eq!(tax.weakening_killed, 1);
    assert_eq!(tax.strengthening_total + tax.replacement_total, 0);
}

#[test]
fn weakest_class_least_rate_first_on_tie() {
    assert_eq!(MutationTaxonomy::default().weakest_class(), None);
    let t = MutationTaxonomy {
        weakening_total: 2,
        weakening_killed: 1,
        strengthening_total: 2,
        strengthening_killed: 2,
        replacement_total: 1,
        replacement_killed: 0,
    };
    assert_eq!(t.weakest_class(), Some(MutantClass::Replacement));
    let tie = MutationTaxonomy {
        weakening_total: 2,
        weakening_killed: 1,
        strengthening_total: 4,
        strengthening_killed: 2,
        replacement_total: 0,
        replacement_killed: 0,
    };
    assert_eq!(tie.weakest_class(), Some(MutantClass::Weakening));
    let s_only = MutationTaxonomy { strengthening_total: 3, strengthening_killed: 1, ..MutationTaxonomy::default() };
    assert_eq!(s_only.weakest_class(), Some(MutantClass::Strengthening));
    assert_eq!(class_phrase(MutantClass::Replacement), "predicate replacement");
}

#[test]
fn outcome_follows_killed_flag() {
    assert_eq!(outcome_of(true), MutantOutcome::Killed);
    assert_eq!(outcome_of(false), MutantOutcome::Alive);
}

#[test]
fn truncate_keeps_short_text_and_marks_cuts() {
    assert_eq!(truncate("abc", 40), "abc");
    assert_eq!(truncate("abcdef", 5), "ab...");
    assert_eq!(truncate("abcdef", 6), "abcdef");
    assert_eq!(truncate("abcdef", 2), "...");
    assert_eq!(truncate("ééééé", 4), "é...");
}

#[test]
fn config_defaults() {
    assert_eq!(default_model_bound(), 2);
    assert_eq!(default_quantifier_rank(), 2);
    assert_eq!(default_seed(), 42);
    assert_eq!(default_format(), "text");
}

#[test]
fn taxonomy_of_concatenation_is_merge() {
    let muts = vec![
        make_mutant(0, MutantClass::Weakening),
        make_mutant(1, MutantClass::Strengthening),
        make_mutant(2, MutantClass::Replacement),
    ];
    let first = tight_from(vec![make_status(0, true), make_status(1, false)]);
    let second = tight_from(vec![make_status(2, true), make_status(0, false), make_status(1, true)]);
    let both = tight_from(vec![
        make_status(0, true),
        make_status(1, false),
        make_status(2, true),
        make_status(0, false),
        make_status(1, true),
    ]);
    let mut merged = MutationTaxonomy::compute(&muts, &first);
    merged.merge(&MutationTaxonomy::compute(&muts, &second));
    assert_eq!(merged, MutationTaxonomy::compute(&muts, &both));
    assert_eq!(merged.weakening_total, 2);
    assert_eq!(merged.weakening_killed, 1);
    assert_eq!(merged.strengthening_killed, 1);
    assert_eq!(merged.replacement_killed, 1);
}

#[test]
fn contribution_unique_and_shared_add_up() {
    let full = tight_from(vec![make_status(1, true), make_status(2, true), make_status(3, true), make_status(5, true)]);
    let baseline = tight_from(vec![make_status(2, true), make_status(5, true), make_status(8, true)]);
    let c = TheoremContribution::from_kill_sets("split", &full, &baseline);
    assert_eq!(c.unique_kills + c.shared_kills, c.total_kills);
    assert_eq!(c.unique_kills, 2);
}
