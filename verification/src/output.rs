//! Report pieces without floating-point fields: the Lean translation
//! report and the timing breakdown.
use vstd::prelude::*;
use std::time::Duration;
use crate::ir_types::strings_view;
use crate::lean_pipeline::{pairs_view, TranslationSummary};
use crate::tightness::WitnessDirection;

verus! {

/// One `(name, reason)` row of the skipped theorems or predicates.
#[derive(Debug, Clone)]
pub struct SkippedItem {
    /// The declaration.
    pub name: String,
    /// Why it was skipped.
    pub reason: String,
}

/// The sort filter's report, as written out.
#[derive(Debug, Clone)]
pub struct SortFilterJson {
    /// Sort count before filtering.
    pub original_sorts: usize,
    /// Sort count after filtering.
    pub filtered_sorts: usize,
    /// Sort names dropped.
    pub removed: Vec<String>,
}

/// The Lean translation, as written out.
#[derive(Debug, Clone)]
pub struct LeanTranslationReport {
    /// Theorems whose statements became axioms.
    pub translated_theorems: Vec<String>,
    /// Theorems skipped.
    pub skipped_theorems: Vec<SkippedItem>,
    /// Predicates that gave at least one axiom.
    pub translated_predicates: Vec<String>,
    /// Predicates skipped.
    pub skipped_predicates: Vec<SkippedItem>,
    /// Non-fatal diagnostics.
    pub warnings: Vec<String>,
    /// The sort filter's report.
    pub sort_filter: SortFilterJson,
    /// Number of implementation models selected from the satisfying set.
    pub auto_implementations: usize,
}

/// Abstract value of skipped rows.
pub open spec fn items_view(v: Seq<SkippedItem>) -> Seq<(Seq<char>, Seq<char>)> {
    v.map_values(|x: SkippedItem| (x.name@, x.reason@))
}

fn copy_names(v: &Vec<String>) -> (r: Vec<String>)
    ensures
        strings_view(r@) == strings_view(v@),
{
    let mut out: Vec<String> = Vec::new();
    let mut i: usize = 0;
    while i < v.len()
        invariant
            i <= v@.len(),
            strings_view(out@) == strings_view(v@).take(i as int),
        decreases v.len() - i,
    {
        let ghost b = strings_view(out@);
        out.push(crate::signature::copy_string(&v[i]));
        proof {
            assert(strings_view(out@) =~= b.push(v@[i as int]@));
            assert(strings_view(v@).take(i + 1) =~= strings_view(v@).take(i as int).push(v@[i as int]@));
        }
        i = i + 1;
    }
    proof {
        assert(strings_view(v@).take(i as int) =~= strings_view(v@));
    }
    out
}

fn items_of(v: &Vec<(String, String)>) -> (r: Vec<SkippedItem>)
    ensures
        items_view(r@) == pairs_view(v@),
{
    let mut out: Vec<SkippedItem> = Vec::new();
    let mut i: usize = 0;
    while i < v.len()
        invariant
            i <= v@.len(),
            items_view(out@) == pairs_view(v@).take(i as int),
        decreases v.len() - i,
    {
        let ghost b = items_view(out@);
        out.push(
            SkippedItem { name: crate::signature::copy_string(&v[i].0), reason: crate::signature::copy_string(&v[i].1) },
        );
        proof {
            assert(items_view(out@) =~= b.push((v@[i as int].0@, v@[i as int].1@)));
            assert(pairs_view(v@).take(i + 1) =~= pairs_view(v@).take(i as int).push((v@[i as int].0@, v@[i as int].1@)));
        }
        i = i + 1;
    }
    proof {
        assert(pairs_view(v@).take(i as int) =~= pairs_view(v@));
    }
    out
}

/// The report of a translation summary, field by field.
pub fn translation_summary_to_report(s: &TranslationSummary) -> (r: LeanTranslationReport)
    ensures
        strings_view(r.translated_theorems@) == strings_view(s.translated_theorems@),
        items_view(r.skipped_theorems@) == pairs_view(s.skipped_theorems@),
        strings_view(r.translated_predicates@) == strings_view(s.translated_predicates@),
        items_view(r.skipped_predicates@) == pairs_view(s.skipped_predicates@),
        strings_view(r.warnings@) == strings_view(s.warnings@),
        r.sort_filter.original_sorts == s.sort_filter.original_sorts,
        r.sort_filter.filtered_sorts == s.sort_filter.filtered_sorts,
        strings_view(r.sort_filter.removed@) == strings_view(s.sort_filter.removed@),
        r.auto_implementations == s.auto_implementations,
{
    LeanTranslationReport {
        translated_theorems: copy_names(&s.translated_theorems),
        skipped_theorems: items_of(&s.skipped_theorems),
        translated_predicates: copy_names(&s.translated_predicates),
        skipped_predicates: items_of(&s.skipped_predicates),
        warnings: copy_names(&s.warnings),
        sort_filter: SortFilterJson {
            original_sorts: s.sort_filter.original_sorts,
            filtered_sorts: s.sort_filter.filtered_sorts,
            removed: copy_names(&s.sort_filter.removed),
        },
        auto_implementations: s.auto_implementations,
    }
}

/// Durations of the pipeline's phases, in milliseconds.
#[derive(Debug, Clone, Copy, Default)]
pub struct TimingBreakdown {
    /// Parsing.
    pub parse_ms: u128,
    /// Model enumeration.
    pub enumeration_ms: u128,
    /// Mutation generation.
    pub mutation_ms: u128,
    /// Tightness evaluation.
    pub tightness_ms: u128,
    /// Wall clock, all phases.
    pub total_ms: u128,
}

/// What `Duration::as_millis` returns for a duration: its whole
/// milliseconds.
pub uninterp spec fn duration_millis(d: Duration) -> u128;

/// `Duration::as_millis`: the whole milliseconds of `d`, named by
/// [`duration_millis`]; a `Duration` is opaque here, so the number itself
/// is not spelled out.
#[verifier::external_body]
fn millis_of(d: Duration) -> (r: u128)
    ensures
        r == duration_millis(d),
{
    d.as_millis()
}

impl TimingBreakdown {
    /// The breakdown with `total_ms` set to the whole milliseconds of
    /// `total`; the phases are kept.
    pub fn with_total(self, total: Duration) -> (r: Self)
        ensures
            r.parse_ms == self.parse_ms,
            r.enumeration_ms == self.enumeration_ms,
            r.mutation_ms == self.mutation_ms,
            r.tightness_ms == self.tightness_ms,
            r.total_ms == duration_millis(total),
    {
        let mut out = self;
        out.total_ms = millis_of(total);
        out
    }
}

/// How a witness separates the two specifications, in words.
pub fn witness_direction_label(d: WitnessDirection) -> (r: &'static str)
    ensures
        r@ == (match d {
            WitnessDirection::MutantAdmits => "mutant admits, spec rejects"@,
            WitnessDirection::MutantRejects => "spec admits, mutant rejects"@,
        }),
{
    match d {
        WitnessDirection::MutantAdmits => "mutant admits, spec rejects",
        WitnessDirection::MutantRejects => "spec admits, mutant rejects",
    }
}

/// The text a character stands for in HTML: `&`, `<`, `>` and `"` are
/// escaped, every other character stands for itself.
pub open spec fn escaped_char(c: char) -> Seq<char> {
    if c == '&' {
        "&amp;"@
    } else if c == '<' {
        "&lt;"@
    } else if c == '>' {
        "&gt;"@
    } else if c == '"' {
        "&quot;"@
    } else {
        seq![c]
    }
}

/// `s` with each character escaped for HTML.
pub open spec fn escaped(s: Seq<char>) -> Seq<char>
    decreases s.len(),
{
    if s.len() == 0 {
        seq![]
    } else {
        escaped(s.drop_last()) + escaped_char(s.last())
    }
}

/// `s` made safe to embed in HTML text and attributes.
pub fn escape(s: &str) -> (r: String)
    ensures
        r@ == escaped(s@),
{
    let n = crate::names::char_len(s);
    let mut out = String::new();
    let mut i: usize = 0;
    while i < n
        invariant
            n == s@.len(),
            i <= n,
            out@ == escaped(s@.take(i as int)),
        decreases n - i,
    {
        let c = match crate::names::nth_char(s, i) {
            Some(c) => c,
            None => ' ',
        };
        if c == '&' {
            out.append("&amp;");
        } else if c == '<' {
            out.append("&lt;");
        } else if c == '>' {
            out.append("&gt;");
        } else if c == '"' {
            out.append("&quot;");
        } else {
            let one = s.substring_char(i, i + 1);
            proof {
                assert(one@ =~= seq![c]);
            }
            out.append(one);
        }
        proof {
            assert(s@.take(i + 1).drop_last() =~= s@.take(i as int));
            assert(s@.take(i + 1).last() == c);
        }
        i = i + 1;
    }
    proof {
        assert(s@.take(i as int) =~= s@);
    }
    out
}

} // verus!
