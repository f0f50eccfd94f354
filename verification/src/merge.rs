//! Compaction of rule lists: sorting, and dropping rules that a parent domain covers.
use vstd::prelude::*;

use crate::coverage::{coverage_of, parent_covers, views, CoverageView, DomainCoverage};
use crate::rule::{adblock_domain_rule, spec_adblock_rule};
use crate::sort::{char_views, lemma_lex_total_ordering, lex_order, sort_chars};
use crate::text::{chars_of, string_of};

verus! {

broadcast use {vstd::seq_lib::group_to_multiset_ensures, vstd::multiset::group_multiset_axioms};

/// A rule survives compaction against `c` unless it is an adblock domain rule that a
/// parent domain covers with its options.
pub open spec fn keep_rule(c: CoverageView, rule: Seq<char>) -> bool {
    match spec_adblock_rule(rule) {
        Some((e, d, s)) => !parent_covers(c, e, d, s),
        None => true,
    }
}

/// `keep_rule` against `c`, as a predicate.
pub open spec fn kept_by(c: CoverageView) -> spec_fn(Seq<char>) -> bool {
    |rule: Seq<char>| keep_rule(c, rule)
}

/// The rules sorted, then stripped of the adblock rules whose domain has a parent domain
/// that the rules themselves cover with the same options.
pub open spec fn spec_compact(rules: Seq<Seq<char>>) -> Seq<Seq<char>> {
    rules.sort_by(lex_order()).filter(kept_by(coverage_of(rules)))
}

/// Two sequences with the same elements record the same coverage.
pub proof fn lemma_coverage_of_same_elements(a: Seq<Seq<char>>, b: Seq<Seq<char>>)
    requires
        forall|x: Seq<char>| a.contains(x) <==> b.contains(x),
    ensures
        coverage_of(a) == coverage_of(b),
{
    assert forall|p: (bool, Seq<char>)| coverage_of(a).0.contains(p) implies coverage_of(b).0.contains(p) by {
        let i = choose|i: int| 0 <= i < a.len() && #[trigger] crate::coverage::is_broad_rule_for(spec_adblock_rule(a[i]), p);
        assert(a.contains(a[i]));
        let j = choose|j: int| 0 <= j < b.len() && b[j] == a[i];
        assert(crate::coverage::is_broad_rule_for(spec_adblock_rule(b[j]), p));
    }
    assert forall|p: (bool, Seq<char>)| coverage_of(b).0.contains(p) implies coverage_of(a).0.contains(p) by {
        let i = choose|i: int| 0 <= i < b.len() && #[trigger] crate::coverage::is_broad_rule_for(spec_adblock_rule(b[i]), p);
        assert(b.contains(b[i]));
        let j = choose|j: int| 0 <= j < a.len() && a[j] == b[i];
        assert(crate::coverage::is_broad_rule_for(spec_adblock_rule(a[j]), p));
    }
    assert forall|r: (bool, Seq<char>, Seq<char>)| coverage_of(a).1.contains(r) implies coverage_of(b).1.contains(r) by {
        let i = choose|i: int| 0 <= i < a.len() && #[trigger] spec_adblock_rule(a[i]) == Some(r);
        assert(a.contains(a[i]));
        let j = choose|j: int| 0 <= j < b.len() && b[j] == a[i];
        assert(spec_adblock_rule(b[j]) == Some(r));
    }
    assert forall|r: (bool, Seq<char>, Seq<char>)| coverage_of(b).1.contains(r) implies coverage_of(a).1.contains(r) by {
        let i = choose|i: int| 0 <= i < b.len() && #[trigger] spec_adblock_rule(b[i]) == Some(r);
        assert(b.contains(b[i]));
        let j = choose|j: int| 0 <= j < a.len() && a[j] == b[i];
        assert(spec_adblock_rule(a[j]) == Some(r));
    }
    assert(coverage_of(a).0 =~= coverage_of(b).0);
    assert(coverage_of(a).1 =~= coverage_of(b).1);
}

/// The characters of each string.
fn chars_of_all(rules: &Vec<String>) -> (res: Vec<Vec<char>>)
    ensures
        char_views(res@) == views(rules@),
{
    let mut out: Vec<Vec<char>> = Vec::new();
    let n = rules.len();
    let mut i: usize = 0;
    while i < n
        invariant
            i <= n == rules@.len(),
            char_views(out@) == views(rules@.take(i as int)),
        decreases n - i,
    {
        let c = chars_of(rules[i].as_str());
        let ghost prev = out@;
        out.push(c);
        proof {
            assert(char_views(out@) =~= char_views(prev).push(c@));
            assert(views(rules@.take(i + 1)) =~= views(rules@.take(i as int)).push(rules@[i as int]@));
        }
        i = i + 1;
    }
    assert(rules@.take(n as int) =~= rules@);
    out
}

/// A string for each character vector.
fn strings_of_all(v: &Vec<Vec<char>>) -> (res: Vec<String>)
    ensures
        views(res@) == char_views(v@),
{
    let mut out: Vec<String> = Vec::new();
    let n = v.len();
    let mut i: usize = 0;
    while i < n
        invariant
            i <= n == v@.len(),
            views(out@) == char_views(v@.take(i as int)),
        decreases n - i,
    {
        let st = string_of(&v[i]);
        let ghost prev = out@;
        out.push(st);
        proof {
            assert(views(out@) =~= views(prev).push(st@));
            assert(char_views(v@.take(i + 1)) =~= char_views(v@.take(i as int)).push(v@[i as int]@));
        }
        i = i + 1;
    }
    assert(v@.take(n as int) =~= v@);
    out
}

/// Sorts strings in character order.
fn sort_strings(rules: &Vec<String>) -> (res: Vec<String>)
    ensures
        views(res@) == views(rules@).sort_by(lex_order()),
{
    let cv = chars_of_all(rules);
    let sorted = sort_chars(cv);
    let out = strings_of_all(&sorted);
    proof {
        lemma_lex_total_ordering();
        views(rules@).lemma_sort_by_ensures(lex_order());
        vstd::seq_lib::lemma_sorted_unique(views(out@), views(rules@).sort_by(lex_order()), lex_order());
    }
    out
}

/// Sorts the rules and drops every adblock domain rule whose domain has a parent domain
/// that the rules cover with the same options (a broad parent covers any options).
pub fn compact_domain_rules(rules: Vec<String>) -> (res: Vec<String>)
    ensures
        views(res@) == spec_compact(views(rules@)),
{
    let sorted = sort_strings(&rules);
    let ghost sv = views(sorted@);
    let coverage = DomainCoverage::from_rules(sorted.as_slice());
    proof {
        lemma_lex_total_ordering();
        views(rules@).lemma_sort_by_ensures(lex_order());
        assert forall|x: Seq<char>| sv.contains(x) <==> views(rules@).contains(x) by {
            assert(sv.to_multiset().count(x) == views(rules@).to_multiset().count(x));
        }
        lemma_coverage_of_same_elements(sv, views(rules@));
    }
    let ghost pred = kept_by(coverage_of(views(rules@)));
    let mut out: Vec<String> = Vec::new();
    let n = sorted.len();
    let mut i: usize = 0;
    while i < n
        invariant
            i <= n == sorted@.len(),
            sv == views(sorted@),
            coverage.wf(),
            coverage@ == coverage_of(views(rules@)),
            pred == kept_by(coverage_of(views(rules@))),
            views(out@) == sv.take(i as int).filter(pred),
        decreases n - i,
    {
        let keep = match adblock_domain_rule(sorted[i].as_str()) {
            Some(domain_rule) => !coverage.has_covering_parent(&domain_rule),
            None => true,
        };
        proof {
            assert(sv.take(i + 1).drop_last() =~= sv.take(i as int));
            assert(sv.take(i + 1).last() == sorted@[i as int]@);
            assert(keep == pred(sorted@[i as int]@));
            reveal(Seq::filter);
            assert(sv.take(i + 1).filter(pred) == (if pred(sorted@[i as int]@) {
                sv.take(i as int).filter(pred).push(sorted@[i as int]@)
            } else {
                sv.take(i as int).filter(pred)
            }));
        }
        if keep {
            out.push(sorted[i].clone());
            proof {
                assert(views(out@) =~= sv.take(i as int).filter(pred).push(sorted@[i as int]@));
            }
        }
        i = i + 1;
    }
    assert(sv.take(n as int) =~= sv);
    out
}

} // verus!
