//! Properties of compaction and merging that span several functions.
use vstd::prelude::*;
use vstd::relations::{sorted_by, total_ordering};

use crate::coverage::{
    coverage_of, covers_with_suffix, has_broad, has_rule_on, is_broad_rule_for, is_broad_suffix, is_parent_cut,
    parent_covers, spec_covers_block_rule, spec_has_broad_covering_domain, spec_has_covering_domain,
    CoverageView,
};
use crate::merge::{kept_by, keep_rule, lemma_coverage_of_same_elements, spec_compact};
use crate::pipeline::{
    spec_covered_subdomains, spec_dedup, spec_merged_allow, spec_merged_block, spec_overlap,
    uncovered_block_rules,
};
use crate::rule::{spec_adblock_rule, spec_domain_key, spec_host_domain};
use crate::sort::{lemma_lex_total_ordering, lex_le, lex_order};

verus! {

broadcast use {vstd::seq_lib::group_to_multiset_ensures, vstd::multiset::group_multiset_axioms};

/// What a filtered sequence holds.
pub proof fn lemma_filter_contains(s: Seq<Seq<char>>, p: spec_fn(Seq<char>) -> bool, x: Seq<char>)
    ensures
        s.filter(p).contains(x) <==> (s.contains(x) && p(x)),
    decreases s.len(),
{
    reveal(Seq::filter);
    if s.len() > 0 {
        lemma_filter_contains(s.drop_last(), p, x);
        let sub = s.drop_last().filter(p);
        if p(s.last()) {
            assert(s.filter(p) == sub.push(s.last()));
            if sub.push(s.last()).contains(x) {
                if x != s.last() {
                    let k = choose|k: int| 0 <= k < sub.push(s.last()).len() && sub.push(s.last())[k] == x;
                    assert(sub[k] == x);
                }
            }
            if sub.contains(x) {
                let k = choose|k: int| 0 <= k < sub.len() && sub[k] == x;
                assert(sub.push(s.last())[k] == x);
            }
            assert(sub.push(s.last())[sub.len() as int] == s.last());
        }
        if s.drop_last().contains(x) {
            let k = choose|k: int| 0 <= k < s.drop_last().len() && s.drop_last()[k] == x;
            assert(s[k] == x);
        }
        if s.contains(x) && x != s.last() {
            let k = choose|k: int| 0 <= k < s.len() && s[k] == x;
            assert(s.drop_last()[k] == x);
        }
        assert(s[s.len() - 1] == s.last());
    }
}

/// Filtering keeps a sequence sorted.
proof fn lemma_filter_sorted(s: Seq<Seq<char>>, p: spec_fn(Seq<char>) -> bool)
    requires
        sorted_by(s, lex_order()),
        total_ordering(lex_order()),
    ensures
        sorted_by(s.filter(p), lex_order()),
    decreases s.len(),
{
    reveal(Seq::filter);
    if s.len() > 0 {
        assert(sorted_by(s.drop_last(), lex_order()));
        lemma_filter_sorted(s.drop_last(), p);
        let sub = s.drop_last().filter(p);
        if p(s.last()) {
            let t = sub.push(s.last());
            assert forall|i: int, j: int| 0 <= i < j < t.len() implies #[trigger] lex_order()(t[i], t[j]) by {
                if j == t.len() - 1 {
                    assert(sub.contains(t[i]));
                    lemma_filter_contains(s.drop_last(), p, t[i]);
                    let k = choose|k: int| 0 <= k < s.drop_last().len() && s.drop_last()[k] == t[i];
                    assert(s[k] == t[i]);
                    assert(lex_order()(s[k], s[s.len() - 1]));
                }
            }
        }
    }
}

/// Filtering by a predicate that every element meets changes nothing.
pub(crate) proof fn lemma_filter_all(s: Seq<Seq<char>>, p: spec_fn(Seq<char>) -> bool)
    requires
        forall|i: int| 0 <= i < s.len() ==> p(#[trigger] s[i]),
    ensures
        s.filter(p) == s,
    decreases s.len(),
{
    reveal(Seq::filter);
    if s.len() > 0 {
        lemma_filter_all(s.drop_last(), p);
        assert(p(s[s.len() - 1]));
        assert(s.drop_last().push(s.last()) =~= s);
    }
}

/// The compacted rules are the input rules that survive: sorted, each one an input rule.
pub proof fn lemma_compact_elements(rules: Seq<Seq<char>>, x: Seq<char>)
    ensures
        spec_compact(rules).contains(x) <==> (rules.contains(x) && keep_rule(coverage_of(rules), x)),
        sorted_by(spec_compact(rules), lex_order()),
{
    lemma_lex_total_ordering();
    rules.lemma_sort_by_ensures(lex_order());
    let sorted = rules.sort_by(lex_order());
    lemma_filter_contains(sorted, kept_by(coverage_of(rules)), x);
    assert(sorted.to_multiset().count(x) == rules.to_multiset().count(x));
    lemma_filter_sorted(sorted, kept_by(coverage_of(rules)));
}

/// The coverage of a subset of rules is within the coverage of the rules.
proof fn lemma_coverage_of_subset(sub: Seq<Seq<char>>, sup: Seq<Seq<char>>)
    requires
        forall|x: Seq<char>| sub.contains(x) ==> sup.contains(x),
    ensures
        coverage_of(sub).0 <= coverage_of(sup).0,
        coverage_of(sub).1 <= coverage_of(sup).1,
{
    assert forall|p: (bool, Seq<char>)| coverage_of(sub).0.contains(p) implies coverage_of(sup).0.contains(p) by {
        let i = choose|i: int| 0 <= i < sub.len() && #[trigger] is_broad_rule_for(spec_adblock_rule(sub[i]), p);
        assert(sub.contains(sub[i]));
        let j = choose|j: int| 0 <= j < sup.len() && sup[j] == sub[i];
        assert(is_broad_rule_for(spec_adblock_rule(sup[j]), p));
    }
    assert forall|r: (bool, Seq<char>, Seq<char>)| coverage_of(sub).1.contains(r) implies coverage_of(sup).1.contains(r) by {
        let i = choose|i: int| 0 <= i < sub.len() && #[trigger] spec_adblock_rule(sub[i]) == Some(r);
        assert(sub.contains(sub[i]));
        let j = choose|j: int| 0 <= j < sup.len() && sup[j] == sub[i];
        assert(spec_adblock_rule(sup[j]) == Some(r));
    }
}

/// A broad rule recorded from a list of rules is also recorded as a rule of its domain.
proof fn lemma_broad_is_rule(rules: Seq<Seq<char>>, e: bool, d: Seq<char>)
    requires
        coverage_of(rules).0.contains((e, d)),
    ensures
        has_rule_on(coverage_of(rules), e, d),
{
    let k = choose|k: int| 0 <= k < rules.len() && #[trigger] is_broad_rule_for(spec_adblock_rule(rules[k]), (e, d));
    let (_, _, s) = spec_adblock_rule(rules[k])->0;
    assert(spec_adblock_rule(rules[k]) == Some((e, d, s)));
    assert(coverage_of(rules).1.contains((e, d, s)));
}

/// Covering by a parent only grows with the coverage.
proof fn lemma_parent_covers_monotone(
    small: CoverageView,
    big: CoverageView,
    e: bool,
    d: Seq<char>,
    s: Seq<char>,
)
    requires
        small.0 <= big.0,
        small.1 <= big.1,
        parent_covers(small, e, d, s),
    ensures
        parent_covers(big, e, d, s),
{
    let i = choose|i: int| #[trigger] is_parent_cut(d, i) && covers_with_suffix(small, e, d.skip(i + 1), s);
    assert(is_parent_cut(d, i) && covers_with_suffix(big, e, d.skip(i + 1), s));
}

/// No rule left by compaction has a parent domain covering it among the compacted rules:
/// the compacted list holds no redundant subdomain rule.
pub proof fn lemma_compact_no_covered_subdomain(rules: Seq<Seq<char>>, x: Seq<char>)
    requires
        spec_compact(rules).contains(x),
    ensures
        keep_rule(coverage_of(spec_compact(rules)), x),
{
    let out = spec_compact(rules);
    lemma_compact_elements(rules, x);
    assert forall|y: Seq<char>| out.contains(y) implies rules.contains(y) by {
        lemma_compact_elements(rules, y);
    }
    lemma_coverage_of_subset(out, rules);
    if let Some((e, d, s)) = spec_adblock_rule(x) {
        if parent_covers(coverage_of(out), e, d, s) {
            lemma_parent_covers_monotone(coverage_of(out), coverage_of(rules), e, d, s);
        }
    }
}

/// Compacting twice is compacting once.
pub proof fn lemma_compact_idempotent(rules: Seq<Seq<char>>)
    ensures
        spec_compact(spec_compact(rules)) == spec_compact(rules),
{
    let out = spec_compact(rules);
    lemma_lex_total_ordering();
    lemma_compact_elements(rules, Seq::<char>::empty());
    out.lemma_sort_by_ensures(lex_order());
    vstd::seq_lib::lemma_sorted_unique(out.sort_by(lex_order()), out, lex_order());
    let p = kept_by(coverage_of(out));
    assert forall|i: int| 0 <= i < out.len() implies p(#[trigger] out[i]) by {
        assert(out.contains(out[i]));
        lemma_compact_no_covered_subdomain(rules, out[i]);
    }
    lemma_filter_all(out, p);
}

/// A parent of a parent domain is a parent domain.
proof fn lemma_parent_of_parent(d: Seq<char>, i: int, j: int)
    requires
        is_parent_cut(d, i),
        is_parent_cut(d.skip(i + 1), j),
    ensures
        is_parent_cut(d, i + 1 + j),
        d.skip(i + 1).skip(j + 1) == d.skip(i + 1 + j + 1),
{
    assert(d.skip(i + 1)[j] == d[i + 1 + j]);
    assert(d.skip(i + 1).skip(j + 1) =~= d.skip(i + 1 + j + 1));
}

/// A kept input rule is in the compacted rules, and so is recorded in their coverage.
proof fn lemma_kept_recorded(rules: Seq<Seq<char>>, k: int, e: bool, d: Seq<char>, s: Seq<char>)
    requires
        0 <= k < rules.len(),
        keep_rule(coverage_of(rules), rules[k]),
        spec_adblock_rule(rules[k]) == Some((e, d, s)),
    ensures
        coverage_of(spec_compact(rules)).1.contains((e, d, s)),
        is_broad_suffix(s) ==> coverage_of(spec_compact(rules)).0.contains((e, d)),
{
    let out = spec_compact(rules);
    let x = rules[k];
    assert(rules.contains(x));
    lemma_compact_elements(rules, x);
    let m = choose|m: int| 0 <= m < out.len() && out[m] == x;
    assert(spec_adblock_rule(out[m]) == Some((e, d, s)));
    if is_broad_suffix(s) {
        assert(is_broad_rule_for(spec_adblock_rule(out[m]), (e, d)));
    }
}

/// A broad rule of the input stays covered after compaction: by a broad rule for the same
/// domain or for a parent domain.
pub proof fn lemma_compact_keeps_broad_coverage(rules: Seq<Seq<char>>, e: bool, d: Seq<char>)
    requires
        coverage_of(rules).0.contains((e, d)),
    ensures
        coverage_of(spec_compact(rules)).0.contains((e, d)) || exists|i: int| #[trigger]
            is_parent_cut(d, i) && coverage_of(spec_compact(rules)).0.contains((e, d.skip(i + 1))),
    decreases d.len(),
{
    let c = coverage_of(rules);
    let o = coverage_of(spec_compact(rules));
    let k = choose|k: int| 0 <= k < rules.len() && #[trigger] is_broad_rule_for(spec_adblock_rule(rules[k]), (e, d));
    let (e0, d0, s) = spec_adblock_rule(rules[k])->0;
    if keep_rule(c, rules[k]) {
        lemma_kept_recorded(rules, k, e, d, s);
    } else {
        let i = choose|i: int| #[trigger] is_parent_cut(d, i) && covers_with_suffix(c, e, d.skip(i + 1), s);
        let p = d.skip(i + 1);
        if !c.0.contains((e, p)) {
            // a rule with broad options for the parent is a broad rule for it
            let q = choose|q: int| 0 <= q < rules.len() && #[trigger] spec_adblock_rule(rules[q]) == Some((e, p, s));
            assert(is_broad_rule_for(spec_adblock_rule(rules[q]), (e, p)));
        }
        lemma_compact_keeps_broad_coverage(rules, e, p);
        if o.0.contains((e, p)) {
            assert(is_parent_cut(d, i) && o.0.contains((e, d.skip(i + 1))));
        } else {
            let j = choose|j: int| #[trigger] is_parent_cut(p, j) && o.0.contains((e, p.skip(j + 1)));
            lemma_parent_of_parent(d, i, j);
            assert(is_parent_cut(d, i + 1 + j) && o.0.contains((e, d.skip(i + 1 + j + 1))));
        }
    }
}

/// Compaction loses nothing: every adblock rule of the input is either kept or covered,
/// with its options, by a parent domain among the compacted rules.
pub proof fn lemma_compact_keeps_coverage(rules: Seq<Seq<char>>, e: bool, d: Seq<char>, s: Seq<char>)
    requires
        coverage_of(rules).1.contains((e, d, s)),
    ensures
        coverage_of(spec_compact(rules)).1.contains((e, d, s)) || parent_covers(
            coverage_of(spec_compact(rules)),
            e,
            d,
            s,
        ),
    decreases d.len(),
{
    let c = coverage_of(rules);
    let o = coverage_of(spec_compact(rules));
    let k = choose|k: int| 0 <= k < rules.len() && #[trigger] spec_adblock_rule(rules[k]) == Some((e, d, s));
    if keep_rule(c, rules[k]) {
        lemma_kept_recorded(rules, k, e, d, s);
    } else {
        let i = choose|i: int| #[trigger] is_parent_cut(d, i) && covers_with_suffix(c, e, d.skip(i + 1), s);
        let p = d.skip(i + 1);
        if c.0.contains((e, p)) {
            lemma_compact_keeps_broad_coverage(rules, e, p);
            if o.0.contains((e, p)) {
                assert(is_parent_cut(d, i) && covers_with_suffix(o, e, d.skip(i + 1), s));
            } else {
                let j = choose|j: int| #[trigger] is_parent_cut(p, j) && o.0.contains((e, p.skip(j + 1)));
                lemma_parent_of_parent(d, i, j);
                assert(is_parent_cut(d, i + 1 + j) && covers_with_suffix(o, e, d.skip(i + 1 + j + 1), s));
            }
        } else {
            lemma_compact_keeps_coverage(rules, e, p, s);
            if o.1.contains((e, p, s)) {
                assert(is_parent_cut(d, i) && covers_with_suffix(o, e, d.skip(i + 1), s));
            } else {
                let j = choose|j: int| #[trigger] is_parent_cut(p, j) && covers_with_suffix(o, e, p.skip(j + 1), s);
                lemma_parent_of_parent(d, i, j);
                assert(is_parent_cut(d, i + 1 + j) && covers_with_suffix(o, e, d.skip(i + 1 + j + 1), s));
            }
        }
    }
}

/// A rule of the input that a domain covers with these options stays covered after
/// compaction: by the same domain or by one of its parents.
proof fn lemma_compact_keeps_covering(rules: Seq<Seq<char>>, e: bool, p: Seq<char>, s: Seq<char>)
    requires
        covers_with_suffix(coverage_of(rules), e, p, s),
    ensures
        covers_with_suffix(coverage_of(spec_compact(rules)), e, p, s) || parent_covers(
            coverage_of(spec_compact(rules)),
            e,
            p,
            s,
        ),
{
    let c = coverage_of(rules);
    let o = coverage_of(spec_compact(rules));
    if c.0.contains((e, p)) {
        lemma_compact_keeps_broad_coverage(rules, e, p);
        if !o.0.contains((e, p)) {
            let j = choose|j: int| #[trigger] is_parent_cut(p, j) && o.0.contains((e, p.skip(j + 1)));
            assert(is_parent_cut(p, j) && covers_with_suffix(o, e, p.skip(j + 1), s));
        }
    } else {
        lemma_compact_keeps_coverage(rules, e, p, s);
    }
}

/// The coverage of the compacted rules is within the coverage of the rules.
proof fn lemma_compact_coverage_within(rules: Seq<Seq<char>>)
    ensures
        coverage_of(spec_compact(rules)).0 <= coverage_of(rules).0,
        coverage_of(spec_compact(rules)).1 <= coverage_of(rules).1,
{
    assert forall|y: Seq<char>| spec_compact(rules).contains(y) implies rules.contains(y) by {
        lemma_compact_elements(rules, y);
    }
    lemma_coverage_of_subset(spec_compact(rules), rules);
}

/// Compacting an allow list never makes it cover a block rule it did not cover; and what
/// compares options is kept exactly: a blocking adblock rule is covered, by its domain or a
/// parent, with its options or broadly, before compaction exactly when after, and a domain
/// is covered by a broad rule, of its own or of a parent, before exactly when after.
pub proof fn lemma_compact_allow_coverage(rules: Seq<Seq<char>>, r: Seq<char>, d: Seq<char>, s: Seq<char>)
    ensures
        spec_covers_block_rule(coverage_of(spec_compact(rules)), r) ==> spec_covers_block_rule(
            coverage_of(rules),
            r,
        ),
        spec_has_covering_domain(coverage_of(spec_compact(rules)), true, d, s, true)
            == spec_has_covering_domain(coverage_of(rules), true, d, s, true),
        spec_has_broad_covering_domain(coverage_of(spec_compact(rules)), true, d)
            == spec_has_broad_covering_domain(coverage_of(rules), true, d),
{
    let c = coverage_of(rules);
    let o = coverage_of(spec_compact(rules));
    lemma_compact_coverage_within(rules);
    // after ==> before: the compacted coverage is within the coverage
    if spec_covers_block_rule(o, r) {
        match spec_adblock_rule(r) {
            Some((e, dr, sr)) => {
                if has_rule_on(o, true, dr) {
                    let w = choose|w: Seq<char>| o.1.contains((true, dr, w));
                    assert(c.1.contains((true, dr, w)));
                } else {
                    lemma_parent_covers_monotone(o, c, true, dr, sr);
                }
            },
            None => {
                let dr = spec_host_domain(r)->0;
                if has_rule_on(o, true, dr) {
                    let w = choose|w: Seq<char>| o.1.contains((true, dr, w));
                    assert(c.1.contains((true, dr, w)));
                } else if !o.0.contains((true, dr)) {
                    let i = choose|i: int| #[trigger] is_parent_cut(dr, i) && o.0.contains((true, dr.skip(i + 1)));
                    assert(c.0.contains((true, dr.skip(i + 1))));
                }
            },
        }
    }
    if spec_has_covering_domain(o, true, d, s, true) && !covers_with_suffix(o, true, d, s) {
        lemma_parent_covers_monotone(o, c, true, d, s);
    }
    if spec_has_broad_covering_domain(o, true, d) && !o.0.contains((true, d)) {
        let i = choose|i: int| #[trigger] is_parent_cut(d, i) && o.0.contains((true, d.skip(i + 1)));
        assert(c.0.contains((true, d.skip(i + 1))));
    }
    // before ==> after: compaction keeps covering up to parents
    if covers_with_suffix(c, true, d, s) {
        lemma_compact_keeps_covering(rules, true, d, s);
    }
    if parent_covers(c, true, d, s) {
        let i = choose|i: int| #[trigger] is_parent_cut(d, i) && covers_with_suffix(c, true, d.skip(i + 1), s);
        let p = d.skip(i + 1);
        lemma_compact_keeps_covering(rules, true, p, s);
        if covers_with_suffix(o, true, p, s) {
            assert(is_parent_cut(d, i) && covers_with_suffix(o, true, d.skip(i + 1), s));
        } else {
            let j = choose|j: int| #[trigger] is_parent_cut(p, j) && covers_with_suffix(o, true, p.skip(j + 1), s);
            lemma_parent_of_parent(d, i, j);
            assert(is_parent_cut(d, i + 1 + j) && covers_with_suffix(o, true, d.skip(i + 1 + j + 1), s));
        }
    }
    if c.0.contains((true, d)) {
        lemma_compact_keeps_broad_coverage(rules, true, d);
    }
    if !c.0.contains((true, d)) && spec_has_broad_covering_domain(c, true, d) {
        let i = choose|i: int| #[trigger] is_parent_cut(d, i) && c.0.contains((true, d.skip(i + 1)));
        let p = d.skip(i + 1);
        lemma_compact_keeps_broad_coverage(rules, true, p);
        if o.0.contains((true, p)) {
            assert(is_parent_cut(d, i) && o.0.contains((true, d.skip(i + 1))));
        } else {
            let j = choose|j: int| #[trigger] is_parent_cut(p, j) && o.0.contains((true, p.skip(j + 1)));
            lemma_parent_of_parent(d, i, j);
            assert(is_parent_cut(d, i + 1 + j) && o.0.contains((true, d.skip(i + 1 + j + 1))));
        }
    }
}

/// Compaction keeps every rule that is not an adblock domain rule (hosts entries and
/// others are never compacted).
pub proof fn lemma_compact_keeps_other_rules(rules: Seq<Seq<char>>, x: Seq<char>)
    requires
        rules.contains(x),
        spec_adblock_rule(x) is None,
    ensures
        spec_compact(rules).contains(x),
{
    lemma_compact_elements(rules, x);
}


// ---------------------------------------------------------------------------
// The merge
// ---------------------------------------------------------------------------

/// Sorted with no element twice.
pub open spec fn strictly_sorted(s: Seq<Seq<char>>) -> bool {
    forall|i: int, j: int| 0 <= i < j < s.len() ==> lex_le(#[trigger] s[i], #[trigger] s[j]) && s[i] != s[j]
}

/// Removing neighbouring duplicates keeps exactly the same elements.
pub proof fn lemma_dedup_contains(s: Seq<Seq<char>>, x: Seq<char>)
    ensures
        spec_dedup(s).contains(x) <==> s.contains(x),
    decreases s.len(),
{
    if s.len() > 1 {
        let t = s.drop_last();
        lemma_dedup_contains(t, x);
        let p = spec_dedup(t);
        if s.contains(x) {
            let k = choose|k: int| 0 <= k < s.len() && s[k] == x;
            if k < s.len() - 1 {
                assert(t[k] == x);
            } else if s.last() == s[s.len() - 2] {
                assert(t[s.len() - 2] == x);
            } else {
                assert(p.push(s.last())[p.len() as int] == x);
            }
            if p.contains(x) && s.last() != s[s.len() - 2] {
                let m = choose|m: int| 0 <= m < p.len() && p[m] == x;
                assert(p.push(s.last())[m] == x);
            }
        }
        if spec_dedup(s).contains(x) {
            if s.last() != s[s.len() - 2] {
                let k = choose|k: int| 0 <= k < p.len() + 1 && p.push(s.last())[k] == x;
                if k < p.len() {
                    assert(p[k] == x);
                    let m = choose|m: int| 0 <= m < t.len() && t[m] == x;
                    assert(s[m] == x);
                } else {
                    assert(s[s.len() - 1] == x);
                }
            } else {
                let m = choose|m: int| 0 <= m < t.len() && t[m] == x;
                assert(s[m] == x);
            }
        }
    }
}

/// Removing neighbouring duplicates from a sorted sequence leaves it strictly sorted.
pub proof fn lemma_dedup_strictly_sorted(s: Seq<Seq<char>>)
    requires
        sorted_by(s, lex_order()),
    ensures
        strictly_sorted(spec_dedup(s)),
    decreases s.len(),
{
    lemma_lex_total_ordering();
    if s.len() > 1 {
        let t = s.drop_last();
        assert(sorted_by(t, lex_order()));
        lemma_dedup_strictly_sorted(t);
        let p = spec_dedup(t);
        if s.last() != s[s.len() - 2] {
            let q = p.push(s.last());
            assert forall|i: int, j: int| 0 <= i < j < q.len() implies lex_le(#[trigger] q[i], #[trigger] q[j]) && q[i] != q[j] by {
                if j == q.len() - 1 {
                    assert(q[i] == p[i]);
                    assert(p.contains(p[i]));
                    lemma_dedup_contains(t, p[i]);
                    let m = choose|m: int| 0 <= m < t.len() && t[m] == p[i];
                    assert(lex_order()(s[m], s[s.len() - 1]));
                    assert(lex_order()(s[m], s[s.len() - 2]) || m == s.len() - 2);
                    crate::pipeline::lemma_dedup_last(t);
                    if q[i] == q[j] {
                        // q[i] = s[m] <= s[len - 2] <= s.last() = s[m], so s[len - 2] = s.last()
                        assert(lex_order()(s[s.len() - 2], s[s.len() - 1]));
                        assert(s[m] == s.last());
                        if m < s.len() - 2 {
                            assert(lex_order()(s[m], s[s.len() - 2]));
                            assert(lex_order()(s[s.len() - 2], s[m]));
                        }
                    }
                } else {
                    assert(q[i] == p[i] && q[j] == p[j]);
                }
            }
        }
    }
}

/// Removing neighbouring duplicates keeps the coverage.
proof fn lemma_dedup_coverage(s: Seq<Seq<char>>)
    ensures
        coverage_of(spec_dedup(s)) == coverage_of(s),
{
    assert forall|x: Seq<char>| spec_dedup(s).contains(x) <==> s.contains(x) by {
        lemma_dedup_contains(s, x);
    }
    lemma_coverage_of_same_elements(spec_dedup(s), s);
}

/// Allow rules win: no rule of the merged block list is covered by the collected allow
/// rules or by the merged allow list, nor is it itself one of their rules.
pub proof fn lemma_merged_block_not_covered(allow: Seq<Seq<char>>, block: Seq<Seq<char>>, x: Seq<char>)
    requires
        spec_merged_block(allow, block).contains(x),
    ensures
        !spec_covers_block_rule(coverage_of(allow), x),
        !allow.contains(x),
        !spec_covers_block_rule(coverage_of(spec_merged_allow(allow)), x),
        !spec_merged_allow(allow).contains(x),
{
    let cand = uncovered_block_rules(allow, block);
    lemma_dedup_contains(spec_compact(cand), x);
    lemma_compact_elements(cand, x);
    lemma_filter_contains(block, |r: Seq<char>| !spec_covers_block_rule(coverage_of(allow), r) && !allow.contains(r), x);
    lemma_dedup_contains(spec_compact(allow), x);
    lemma_compact_elements(allow, x);
    lemma_dedup_coverage(spec_compact(allow));
    lemma_compact_allow_coverage(allow, x, Seq::<char>::empty(), Seq::<char>::empty());
}

/// Allow rules win, as the merged lists promise: a rule `y` of the merged block list is
/// neither a collected allow rule nor a rule of the merged allow list, and no collected
/// exception rule `x`, with any options, is for the domain that `y` names, whether or not
/// compaction kept `x`.
pub proof fn lemma_merged_lists_disjoint(
    allow: Seq<Seq<char>>,
    block: Seq<Seq<char>>,
    y: Seq<char>,
    x: Seq<char>,
)
    requires
        spec_merged_block(allow, block).contains(y),
    ensures
        !allow.contains(y),
        !spec_merged_allow(allow).contains(y),
        allow.contains(x) ==> match spec_adblock_rule(x) {
            Some((e, d, _)) => !(e && spec_domain_key(y) == Some(d)),
            None => true,
        },
        spec_merged_allow(allow).contains(x) ==> allow.contains(x),
{
    lemma_merged_block_not_covered(allow, block, y);
    lemma_dedup_contains(spec_compact(allow), x);
    lemma_compact_elements(allow, x);
    if allow.contains(x) {
        if let Some((e, d, s)) = spec_adblock_rule(x) {
            if e && spec_domain_key(y) == Some(d) {
                let k = choose|k: int| 0 <= k < allow.len() && allow[k] == x;
                assert(spec_adblock_rule(allow[k]) == Some((e, d, s)));
                assert(coverage_of(allow).1.contains((true, d, s)));
                assert(has_rule_on(coverage_of(allow), true, d));
            }
        }
    }
}

/// Every rule of a compacted, deduplicated list survives compaction against the list itself.
proof fn lemma_dedup_compact_self_kept(rules: Seq<Seq<char>>, x: Seq<char>)
    requires
        spec_dedup(spec_compact(rules)).contains(x),
    ensures
        keep_rule(coverage_of(spec_dedup(spec_compact(rules))), x),
{
    lemma_dedup_contains(spec_compact(rules), x);
    lemma_compact_no_covered_subdomain(rules, x);
    lemma_dedup_coverage(spec_compact(rules));
}

/// Filtering by a predicate that no element meets leaves nothing.
proof fn lemma_filter_none(s: Seq<Seq<char>>, p: spec_fn(Seq<char>) -> bool)
    requires
        forall|i: int| 0 <= i < s.len() ==> !p(#[trigger] s[i]),
    ensures
        s.filter(p) == Seq::<Seq<char>>::empty(),
    decreases s.len(),
{
    reveal(Seq::filter);
    if s.len() > 0 {
        lemma_filter_none(s.drop_last(), p);
        assert(!p(s[s.len() - 1]));
    }
}

/// The final audits find nothing on merged lists: no redundant subdomain rule in either
/// list, and no block rule that the allow list covers.
pub proof fn lemma_merge_audits_pass(allow: Seq<Seq<char>>, block: Seq<Seq<char>>)
    ensures
        spec_covered_subdomains(spec_merged_allow(allow)).len() == 0,
        spec_covered_subdomains(spec_merged_block(allow, block)).len() == 0,
        spec_overlap(spec_merged_block(allow, block), spec_merged_allow(allow)).len() == 0,
{
    let a = spec_merged_allow(allow);
    let b = spec_merged_block(allow, block);
    let cand = uncovered_block_rules(allow, block);
    let pa = |r: Seq<char>| !keep_rule(coverage_of(a), r);
    assert forall|i: int| 0 <= i < a.len() implies !pa(#[trigger] a[i]) by {
        assert(a.contains(a[i]));
        lemma_dedup_compact_self_kept(allow, a[i]);
    }
    lemma_filter_none(a, pa);
    let pb = |r: Seq<char>| !keep_rule(coverage_of(b), r);
    assert forall|i: int| 0 <= i < b.len() implies !pb(#[trigger] b[i]) by {
        assert(b.contains(b[i]));
        lemma_dedup_compact_self_kept(cand, b[i]);
    }
    lemma_filter_none(b, pb);
    let op = |r: Seq<char>| spec_domain_key(r) is Some && spec_covers_block_rule(coverage_of(a), r);
    assert forall|i: int| 0 <= i < b.len() implies !op(#[trigger] b[i]) by {
        assert(b.contains(b[i]));
        lemma_merged_block_not_covered(allow, block, b[i]);
    }
    lemma_filter_none(b, op);
}

/// Both merged lists are sorted and hold no rule twice.
pub proof fn lemma_merged_strictly_sorted(allow: Seq<Seq<char>>, block: Seq<Seq<char>>)
    ensures
        strictly_sorted(spec_merged_allow(allow)),
        strictly_sorted(spec_merged_block(allow, block)),
{
    let x = Seq::<char>::empty();
    lemma_compact_elements(allow, x);
    lemma_dedup_strictly_sorted(spec_compact(allow));
    let cand = uncovered_block_rules(allow, block);
    lemma_compact_elements(cand, x);
    lemma_dedup_strictly_sorted(spec_compact(cand));
}

/// Nothing the sources ask for is lost: every allow rule, and every block rule that the
/// collected allow rules neither cover nor hold, is kept, or (an adblock domain rule) covered with its
/// options by a parent domain in its merged list.
pub proof fn lemma_merge_keeps_rules(allow: Seq<Seq<char>>, block: Seq<Seq<char>>, x: Seq<char>)
    ensures
        allow.contains(x) ==> match spec_adblock_rule(x) {
            Some((e, d, s)) => coverage_of(spec_merged_allow(allow)).1.contains((e, d, s))
                || parent_covers(coverage_of(spec_merged_allow(allow)), e, d, s),
            None => spec_merged_allow(allow).contains(x),
        },
        block.contains(x) && !spec_covers_block_rule(coverage_of(allow), x) && !allow.contains(x)
            ==> match spec_adblock_rule(x) {
            Some((e, d, s)) => coverage_of(spec_merged_block(allow, block)).1.contains((e, d, s))
                || parent_covers(coverage_of(spec_merged_block(allow, block)), e, d, s),
            None => spec_merged_block(allow, block).contains(x),
        },
{
    let cand = uncovered_block_rules(allow, block);
    lemma_dedup_coverage(spec_compact(allow));
    lemma_dedup_coverage(spec_compact(cand));
    if allow.contains(x) {
        let k = choose|k: int| 0 <= k < allow.len() && allow[k] == x;
        match spec_adblock_rule(x) {
            Some((e, d, s)) => {
                assert(spec_adblock_rule(allow[k]) == Some((e, d, s)));
                lemma_compact_keeps_coverage(allow, e, d, s);
            },
            None => {
                lemma_compact_keeps_other_rules(allow, x);
                lemma_dedup_contains(spec_compact(allow), x);
            },
        }
    }
    if block.contains(x) && !spec_covers_block_rule(coverage_of(allow), x) && !allow.contains(x) {
        lemma_filter_contains(block, |r: Seq<char>| !spec_covers_block_rule(coverage_of(allow), r) && !allow.contains(r), x);
        let k = choose|k: int| 0 <= k < cand.len() && cand[k] == x;
        match spec_adblock_rule(x) {
            Some((e, d, s)) => {
                assert(spec_adblock_rule(cand[k]) == Some((e, d, s)));
                lemma_compact_keeps_coverage(cand, e, d, s);
            },
            None => {
                lemma_compact_keeps_other_rules(cand, x);
                lemma_dedup_contains(spec_compact(cand), x);
            },
        }
    }
}


/// `sub` is `d` or a subdomain of it.
pub open spec fn within_domain(sub: Seq<char>, d: Seq<char>) -> bool {
    sub == d || exists|i: int| #[trigger] is_parent_cut(sub, i) && sub.skip(i + 1) == d
}

/// A coverage that holds a broad rule of this kind for `d` or for a parent of `d` holds
/// one for every domain within `d`, as the domain or as a parent.
proof fn lemma_broad_reaches_within(c: CoverageView, e: bool, d: Seq<char>, sub: Seq<char>)
    requires
        c.0.contains((e, d)) || exists|j: int| #[trigger] is_parent_cut(d, j) && c.0.contains((e, d.skip(j + 1))),
        within_domain(sub, d),
    ensures
        c.0.contains((e, sub)) || exists|k: int| #[trigger] is_parent_cut(sub, k) && c.0.contains((e, sub.skip(k + 1))),
{
    if sub == d {
    } else {
        let i = choose|i: int| #[trigger] is_parent_cut(sub, i) && sub.skip(i + 1) == d;
        if c.0.contains((e, d)) {
            assert(is_parent_cut(sub, i) && c.0.contains((e, sub.skip(i + 1))));
        } else {
            let j = choose|j: int| #[trigger] is_parent_cut(d, j) && c.0.contains((e, d.skip(j + 1)));
            lemma_parent_of_parent(sub, i, j);
            assert(is_parent_cut(sub, i + 1 + j) && c.0.contains((e, sub.skip(i + 1 + j + 1))));
        }
    }
}

/// A domain with a broad allow rule (`@@||domain^` or `@@||domain^$important`) is blocked
/// nowhere in the merged block list: no blocking adblock rule and no hosts entry for it or
/// for any of its subdomains remains.
pub proof fn lemma_broad_allow_clears_domain(
    allow: Seq<Seq<char>>,
    block: Seq<Seq<char>>,
    x: Seq<char>,
    y: Seq<char>,
    d: Seq<char>,
)
    requires
        allow.contains(x),
        is_broad_rule_for(spec_adblock_rule(x), (true, d)),
        spec_merged_block(allow, block).contains(y),
    ensures
        !(spec_adblock_rule(y) matches Some((e, dy, _)) && !e && within_domain(dy, d)),
        spec_adblock_rule(y) is None ==> !(spec_host_domain(y) matches Some(dy) && within_domain(dy, d)),
{
    let a = spec_merged_allow(allow);
    let k = choose|k: int| 0 <= k < allow.len() && allow[k] == x;
    assert(is_broad_rule_for(spec_adblock_rule(allow[k]), (true, d)));
    assert(coverage_of(allow).0.contains((true, d)));
    lemma_compact_keeps_broad_coverage(allow, true, d);
    lemma_dedup_coverage(spec_compact(allow));
    let c = coverage_of(a);
    lemma_merged_block_not_covered(allow, block, y);
    if let Some((e, dy, sy)) = spec_adblock_rule(y) {
        if !e && within_domain(dy, d) {
            lemma_broad_reaches_within(c, true, d, dy);
            if c.0.contains((true, dy)) {
                lemma_broad_is_rule(a, true, dy);
            } else {
                let m = choose|m: int| #[trigger] is_parent_cut(dy, m) && c.0.contains((true, dy.skip(m + 1)));
                assert(is_parent_cut(dy, m) && covers_with_suffix(c, true, dy.skip(m + 1), sy));
            }
        }
    } else {
        if let Some(dy) = spec_host_domain(y) {
            if within_domain(dy, d) {
                lemma_broad_reaches_within(c, true, d, dy);
            }
        }
    }
}


/// Compaction does not depend on the order of its input: rules with the same elements,
/// counted with multiplicity, compact to the same list.
pub proof fn lemma_compact_order_independent(a: Seq<Seq<char>>, b: Seq<Seq<char>>)
    requires
        a.to_multiset() == b.to_multiset(),
    ensures
        spec_compact(a) == spec_compact(b),
{
    lemma_lex_total_ordering();
    a.lemma_sort_by_ensures(lex_order());
    b.lemma_sort_by_ensures(lex_order());
    vstd::seq_lib::lemma_sorted_unique(a.sort_by(lex_order()), b.sort_by(lex_order()), lex_order());
    assert forall|x: Seq<char>| a.contains(x) <==> b.contains(x) by {
        vstd::seq_lib::to_multiset_contains(a, x);
        vstd::seq_lib::to_multiset_contains(b, x);
    }
    lemma_coverage_of_same_elements(a, b);
}

/// Filtering preserves equal counts.
proof fn lemma_filter_multiset(a: Seq<Seq<char>>, b: Seq<Seq<char>>, p: spec_fn(Seq<char>) -> bool)
    requires
        a.to_multiset() == b.to_multiset(),
    ensures
        a.filter(p).to_multiset() == b.filter(p).to_multiset(),
{
    assert forall|x: Seq<char>| a.filter(p).to_multiset().count(x) == b.filter(p).to_multiset().count(x) by {
        lemma_filter_count(a, p, x);
        lemma_filter_count(b, p, x);
        assert(a.to_multiset().count(x) == b.to_multiset().count(x));
    }
    assert(a.filter(p).to_multiset() =~= b.filter(p).to_multiset());
}

/// How often a filtered sequence holds an element.
proof fn lemma_filter_count(s: Seq<Seq<char>>, p: spec_fn(Seq<char>) -> bool, x: Seq<char>)
    ensures
        s.filter(p).to_multiset().count(x) == if p(x) { s.to_multiset().count(x) } else { 0 },
    decreases s.len(),
{
    reveal(Seq::filter);
    if s.len() == 0 {
    } else {
        lemma_filter_count(s.drop_last(), p, x);
        assert(s =~= s.drop_last().push(s.last()));
        assert(s.to_multiset() == s.drop_last().to_multiset().insert(s.last()));
        if p(s.last()) {
            let f = s.drop_last().filter(p);
            assert(f.push(s.last()).to_multiset() == f.to_multiset().insert(s.last()));
        }
    }
}

/// The merge does not depend on the order in which rules were collected.
pub proof fn lemma_merge_order_independent(
    allow1: Seq<Seq<char>>,
    block1: Seq<Seq<char>>,
    allow2: Seq<Seq<char>>,
    block2: Seq<Seq<char>>,
)
    requires
        allow1.to_multiset() == allow2.to_multiset(),
        block1.to_multiset() == block2.to_multiset(),
    ensures
        spec_merged_allow(allow1) == spec_merged_allow(allow2),
        spec_merged_block(allow1, block1) == spec_merged_block(allow2, block2),
{
    lemma_compact_order_independent(allow1, allow2);
    assert forall|x: Seq<char>| allow1.contains(x) <==> allow2.contains(x) by {
        vstd::seq_lib::to_multiset_contains(allow1, x);
        vstd::seq_lib::to_multiset_contains(allow2, x);
    }
    lemma_coverage_of_same_elements(allow1, allow2);
    let p1 = |r: Seq<char>| !spec_covers_block_rule(coverage_of(allow1), r) && !allow1.contains(r);
    let p2 = |r: Seq<char>| !spec_covers_block_rule(coverage_of(allow2), r) && !allow2.contains(r);
    assert(p1 =~= p2);
    lemma_filter_multiset(block1, block2, p1);
    assert(uncovered_block_rules(allow2, block2) == block2.filter(p1));
    lemma_compact_order_independent(uncovered_block_rules(allow1, block1), uncovered_block_rules(allow2, block2));
}

// ---------------------------------------------------------------------------
// Covering by parent domains, stated over the rules themselves
// ---------------------------------------------------------------------------

/// `s2` covers the options `s`: the same options, or broad ones (`^` or `^$important`).
pub open spec fn options_cover(s2: Seq<char>, s: Seq<char>) -> bool {
    s2 == s || s2 == seq!['^'] || s2 == seq!['^', '$', 'i', 'm', 'p', 'o', 'r', 't', 'a', 'n', 't']
}

/// The broad options, character by character.
proof fn lemma_broad_options()
    ensures
        "^"@ == seq!['^'],
        "^$important"@ == seq!['^', '$', 'i', 'm', 'p', 'o', 'r', 't', 'a', 'n', 't'],
{
    reveal_strlit("^");
    reveal_strlit("^$important");
    assert("^"@ =~= seq!['^']);
    assert("^$important"@ =~= seq!['^', '$', 'i', 'm', 'p', 'o', 'r', 't', 'a', 'n', 't']);
}

/// A rule `y` of `rules` for the parent domain `d[i + 1..]` of `d` (cut at the dot `d[i]`),
/// of this kind, whose options cover `s`, makes that parent cover `d` with `s`.
proof fn lemma_rule_makes_parent_cover(
    rules: Seq<Seq<char>>,
    y: Seq<char>,
    e: bool,
    d: Seq<char>,
    s: Seq<char>,
    i: int,
    s2: Seq<char>,
)
    requires
        rules.contains(y),
        0 <= i < d.len(),
        d[i] == '.',
        spec_adblock_rule(y) == Some((e, d.skip(i + 1), s2)),
        options_cover(s2, s),
    ensures
        parent_covers(coverage_of(rules), e, d, s),
{
    lemma_broad_options();
    let c = coverage_of(rules);
    let p = d.skip(i + 1);
    let k = choose|k: int| 0 <= k < rules.len() && rules[k] == y;
    assert(spec_adblock_rule(rules[k]) == Some((e, p, s2)));
    assert(c.1.contains((e, p, s2)));
    if s2 != s {
        assert(is_broad_suffix(s2));
        assert(is_broad_rule_for(spec_adblock_rule(rules[k]), (e, p)));
        assert(c.0.contains((e, p)));
    }
    assert(is_parent_cut(d, i) && covers_with_suffix(c, e, d.skip(i + 1), s));
}

/// Allow rules win through parent domains: a blocking adblock rule is covered by the
/// collected allow rules, and so dropped from the merged block list, whenever some parent
/// domain of its domain, however far up, has an exception rule among them whose options
/// are the same or broad.
pub proof fn lemma_parent_exception_drops_block_rule(
    allow: Seq<Seq<char>>,
    block: Seq<Seq<char>>,
    y: Seq<char>,
    d: Seq<char>,
    s: Seq<char>,
    x: Seq<char>,
    i: int,
    s2: Seq<char>,
)
    requires
        spec_adblock_rule(y) == Some((false, d, s)),
        allow.contains(x),
        0 <= i < d.len(),
        d[i] == '.',
        spec_adblock_rule(x) == Some((true, d.skip(i + 1), s2)),
        options_cover(s2, s),
    ensures
        spec_covers_block_rule(coverage_of(allow), y),
        !spec_merged_block(allow, block).contains(y),
{
    lemma_rule_makes_parent_cover(allow, x, true, d, s, i, s2);
    if spec_merged_block(allow, block).contains(y) {
        lemma_merged_block_not_covered(allow, block, y);
    }
}

/// A hosts entry is covered by the collected allow rules, and so dropped from the merged
/// block list, whenever its domain or some parent of it, however far up, has a broad
/// exception rule among them (`@@||domain^` or `@@||domain^$important`).
pub proof fn lemma_broad_exception_drops_hosts_entry(
    allow: Seq<Seq<char>>,
    block: Seq<Seq<char>>,
    y: Seq<char>,
    d: Seq<char>,
    x: Seq<char>,
    p: Seq<char>,
    s2: Seq<char>,
)
    requires
        spec_adblock_rule(y) is None,
        spec_host_domain(y) == Some(d),
        p == d || exists|i: int| 0 <= i < d.len() && d[i] == '.' && p == d.skip(i + 1),
        allow.contains(x),
        spec_adblock_rule(x) == Some((true, p, s2)),
        s2 == seq!['^'] || s2 == seq!['^', '$', 'i', 'm', 'p', 'o', 'r', 't', 'a', 'n', 't'],
    ensures
        spec_covers_block_rule(coverage_of(allow), y),
        !spec_merged_block(allow, block).contains(y),
{
    lemma_broad_options();
    let c = coverage_of(allow);
    let k = choose|k: int| 0 <= k < allow.len() && allow[k] == x;
    assert(spec_adblock_rule(allow[k]) == Some((true, p, s2)));
    assert(is_broad_suffix(s2));
    assert(is_broad_rule_for(spec_adblock_rule(allow[k]), (true, p)));
    assert(c.0.contains((true, p)));
    if p != d {
        let i = choose|i: int| 0 <= i < d.len() && d[i] == '.' && p == d.skip(i + 1);
        assert(is_parent_cut(d, i) && has_broad(c, true, d.skip(i + 1)));
    }
    if spec_merged_block(allow, block).contains(y) {
        lemma_merged_block_not_covered(allow, block, y);
    }
}

/// `y` is a rule of kind `e` for the parent domain of `d` cut at the dot `d[i]`, with
/// options that cover `s`.
pub open spec fn parent_rule_covers(y: Seq<char>, e: bool, d: Seq<char>, i: int, s: Seq<char>) -> bool {
    &&& 0 <= i < d.len()
    &&& d[i] == '.'
    &&& match spec_adblock_rule(y) {
        Some((ey, p, s2)) => ey == e && p == d.skip(i + 1) && options_cover(s2, s),
        None => false,
    }
}

/// Compaction drops a rule exactly when a parent domain covers it within the list: a
/// compacted list holds no adblock rule for which the input holds a rule of the same kind
/// for a parent domain, however far up, with the same or broad options, whatever the
/// options contain; and every input rule missing from the compacted list has such a rule.
pub proof fn lemma_compact_drops_exactly_the_covered(rules: Seq<Seq<char>>, x: Seq<char>)
    ensures
        rules.contains(x) && !spec_compact(rules).contains(x) ==> match spec_adblock_rule(x) {
            Some((e, d, s)) => exists|y: Seq<char>, i: int|
                #[trigger] rules.contains(y) && #[trigger] parent_rule_covers(y, e, d, i, s),
            None => false,
        },
        spec_compact(rules).contains(x) ==> rules.contains(x) && match spec_adblock_rule(x) {
            Some((e, d, s)) => forall|y: Seq<char>, i: int|
                #[trigger] rules.contains(y) ==> !#[trigger] parent_rule_covers(y, e, d, i, s),
            None => true,
        },
{
    lemma_broad_options();
    lemma_compact_elements(rules, x);
    let c = coverage_of(rules);
    if let Some((e, d, s)) = spec_adblock_rule(x) {
        if rules.contains(x) && !spec_compact(rules).contains(x) {
            let i = choose|i: int| #[trigger] is_parent_cut(d, i) && covers_with_suffix(c, e, d.skip(i + 1), s);
            let p = d.skip(i + 1);
            if c.0.contains((e, p)) {
                let k = choose|k: int| 0 <= k < rules.len() && #[trigger] is_broad_rule_for(spec_adblock_rule(rules[k]), (e, p));
                assert(rules.contains(rules[k]));
                assert(parent_rule_covers(rules[k], e, d, i, s));
            } else {
                let k = choose|k: int| 0 <= k < rules.len() && #[trigger] spec_adblock_rule(rules[k]) == Some((e, p, s));
                assert(rules.contains(rules[k]));
                assert(parent_rule_covers(rules[k], e, d, i, s));
            }
        }
        if spec_compact(rules).contains(x) {
            assert forall|y: Seq<char>, i: int|
                #[trigger] rules.contains(y) implies !#[trigger] parent_rule_covers(y, e, d, i, s) by {
                if parent_rule_covers(y, e, d, i, s) {
                    let (_, _, s2) = spec_adblock_rule(y)->0;
                    lemma_rule_makes_parent_cover(rules, y, e, d, s, i, s2);
                }
            }
        }
    } else {
        if rules.contains(x) {
            lemma_compact_keeps_other_rules(rules, x);
        }
    }
}

/// The audit of a list reports something whenever the list holds an adblock rule that a
/// parent domain covers within it: a rule of the same kind for a parent domain, however
/// far up, with the same or broad options.
pub proof fn lemma_audit_reports_covered_subdomain(
    rules: Seq<Seq<char>>,
    x: Seq<char>,
    e: bool,
    d: Seq<char>,
    s: Seq<char>,
    y: Seq<char>,
    i: int,
    s2: Seq<char>,
)
    requires
        rules.contains(x),
        spec_adblock_rule(x) == Some((e, d, s)),
        rules.contains(y),
        0 <= i < d.len(),
        d[i] == '.',
        spec_adblock_rule(y) == Some((e, d.skip(i + 1), s2)),
        options_cover(s2, s),
    ensures
        spec_covered_subdomains(rules).len() > 0,
{
    lemma_rule_makes_parent_cover(rules, y, e, d, s, i, s2);
    let pred = |r: Seq<char>| !keep_rule(coverage_of(rules), r);
    lemma_filter_contains(rules, pred, x);
    let f = rules.filter(pred);
    assert(f.len() > 0);
    assert(f.map_values(|r: Seq<char>| (r, crate::pipeline::adblock_domain(r))).len() > 0);
}

/// `x` is an exception rule, of any options, for the domain `d`.
pub open spec fn exception_for(x: Seq<char>, d: Seq<char>) -> bool {
    match spec_adblock_rule(x) {
        Some((e, p, _)) => e && p == d,
        None => false,
    }
}

/// `x` is a broad exception rule (`^` or `^$important`) for the parent domain of `d` cut at
/// the dot `d[i]`.
pub open spec fn broad_exception_at_parent(x: Seq<char>, d: Seq<char>, i: int) -> bool {
    &&& 0 <= i < d.len()
    &&& d[i] == '.'
    &&& match spec_adblock_rule(x) {
        Some((e, p, s2)) => e && p == d.skip(i + 1) && (s2 == seq!['^'] || s2 == seq![
            '^',
            '$',
            'i',
            'm',
            'p',
            'o',
            'r',
            't',
            'a',
            'n',
            't',
        ]),
        None => false,
    }
}

/// Why the allow rules `allow` drop a block rule `y`, read off the rules: an exception rule
/// for the domain `y` names, with any options; or, for a blocking adblock rule, an
/// exception rule for a parent domain with the same or broad options; or, for a hosts entry,
/// a broad exception rule for a parent domain.
pub open spec fn allow_excepts(allow: Seq<Seq<char>>, y: Seq<char>) -> bool {
    match spec_adblock_rule(y) {
        Some((e, d, s)) => (exists|x: Seq<char>| #[trigger] allow.contains(x) && exception_for(x, d))
            || (!e && exists|x: Seq<char>, i: int|
            #[trigger] allow.contains(x) && #[trigger] parent_rule_covers(x, true, d, i, s)),
        None => match spec_host_domain(y) {
            Some(d) => (exists|x: Seq<char>| #[trigger] allow.contains(x) && exception_for(x, d))
                || exists|x: Seq<char>, i: int|
                #[trigger] allow.contains(x) && #[trigger] broad_exception_at_parent(x, d, i),
            None => false,
        },
    }
}

/// The allow rules cover a block rule exactly when they give a reason to drop it.
pub proof fn lemma_covers_block_rule_exactly(allow: Seq<Seq<char>>, y: Seq<char>)
    ensures
        spec_covers_block_rule(coverage_of(allow), y) == allow_excepts(allow, y),
{
    lemma_broad_options();
    let c = coverage_of(allow);
    let (d, own) = match spec_adblock_rule(y) {
        Some((_, d, _)) => (d, true),
        None => match spec_host_domain(y) {
            Some(d) => (d, true),
            None => (Seq::<char>::empty(), false),
        },
    };
    if own {
        // an exception rule on the domain itself
        if has_rule_on(c, true, d) {
            let s0 = choose|s0: Seq<char>| c.1.contains((true, d, s0));
            let k = choose|k: int| 0 <= k < allow.len() && #[trigger] spec_adblock_rule(allow[k]) == Some((true, d, s0));
            assert(allow.contains(allow[k]) && exception_for(allow[k], d));
        }
        if exists|x: Seq<char>| #[trigger] allow.contains(x) && exception_for(x, d) {
            let x = choose|x: Seq<char>| #[trigger] allow.contains(x) && exception_for(x, d);
            let (_, _, s0) = spec_adblock_rule(x)->0;
            let k = choose|k: int| 0 <= k < allow.len() && allow[k] == x;
            assert(spec_adblock_rule(allow[k]) == Some((true, d, s0)));
            assert(c.1.contains((true, d, s0)));
        }
    }
    match spec_adblock_rule(y) {
        Some((e, d, s)) => {
            if !e && parent_covers(c, true, d, s) {
                let i = choose|i: int| #[trigger] is_parent_cut(d, i) && covers_with_suffix(c, true, d.skip(i + 1), s);
                let p = d.skip(i + 1);
                if c.0.contains((true, p)) {
                    let k = choose|k: int| 0 <= k < allow.len() && #[trigger] is_broad_rule_for(spec_adblock_rule(allow[k]), (true, p));
                    assert(allow.contains(allow[k]) && parent_rule_covers(allow[k], true, d, i, s));
                } else {
                    let k = choose|k: int| 0 <= k < allow.len() && #[trigger] spec_adblock_rule(allow[k]) == Some((true, p, s));
                    assert(allow.contains(allow[k]) && parent_rule_covers(allow[k], true, d, i, s));
                }
            }
            if !e && exists|x: Seq<char>, i: int| #[trigger] allow.contains(x) && #[trigger] parent_rule_covers(x, true, d, i, s) {
                let (x, i) = choose|x: Seq<char>, i: int| #[trigger] allow.contains(x) && #[trigger] parent_rule_covers(x, true, d, i, s);
                let (_, _, s2) = spec_adblock_rule(x)->0;
                lemma_rule_makes_parent_cover(allow, x, true, d, s, i, s2);
            }
        },
        None => {
            if let Some(d) = spec_host_domain(y) {
                if has_broad(c, true, d) {
                    let k = choose|k: int| 0 <= k < allow.len() && #[trigger] is_broad_rule_for(spec_adblock_rule(allow[k]), (true, d));
                    assert(allow.contains(allow[k]) && exception_for(allow[k], d));
                }
                if exists|i: int| #[trigger] is_parent_cut(d, i) && has_broad(c, true, d.skip(i + 1)) {
                    let i = choose|i: int| #[trigger] is_parent_cut(d, i) && has_broad(c, true, d.skip(i + 1));
                    let p = d.skip(i + 1);
                    let k = choose|k: int| 0 <= k < allow.len() && #[trigger] is_broad_rule_for(spec_adblock_rule(allow[k]), (true, p));
                    assert(allow.contains(allow[k]) && broad_exception_at_parent(allow[k], d, i));
                }
                if exists|x: Seq<char>, i: int| #[trigger] allow.contains(x) && #[trigger] broad_exception_at_parent(x, d, i) {
                    let (x, i) = choose|x: Seq<char>, i: int| #[trigger] allow.contains(x) && #[trigger] broad_exception_at_parent(x, d, i);
                    let (_, p, s2) = spec_adblock_rule(x)->0;
                    let k = choose|k: int| 0 <= k < allow.len() && allow[k] == x;
                    assert(is_broad_rule_for(spec_adblock_rule(allow[k]), (true, p)));
                    assert(is_parent_cut(d, i) && has_broad(c, true, d.skip(i + 1)));
                }
            }
        },
    }
}

/// A block rule that the allow rules neither hold nor give a reason to drop stays in the
/// merged block list, unless a rule of the block list for a parent domain, with the same or
/// broad options, makes it redundant there.
pub proof fn lemma_merge_keeps_unexcepted_block_rule(allow: Seq<Seq<char>>, block: Seq<Seq<char>>, y: Seq<char>)
    requires
        block.contains(y),
        !allow.contains(y),
        !allow_excepts(allow, y),
    ensures
        spec_merged_block(allow, block).contains(y) || match spec_adblock_rule(y) {
            Some((e, d, s)) => exists|z: Seq<char>, i: int|
                #[trigger] block.contains(z) && #[trigger] parent_rule_covers(z, e, d, i, s),
            None => false,
        },
{
    lemma_covers_block_rule_exactly(allow, y);
    let pred = |r: Seq<char>| !spec_covers_block_rule(coverage_of(allow), r) && !allow.contains(r);
    let cand = uncovered_block_rules(allow, block);
    lemma_filter_contains(block, pred, y);
    lemma_compact_drops_exactly_the_covered(cand, y);
    lemma_dedup_contains(spec_compact(cand), y);
    if !spec_compact(cand).contains(y) {
        if let Some((e, d, s)) = spec_adblock_rule(y) {
            let (z, i) = choose|z: Seq<char>, i: int| #[trigger] cand.contains(z) && #[trigger] parent_rule_covers(z, e, d, i, s);
            lemma_filter_contains(block, pred, z);
            assert(block.contains(z) && parent_rule_covers(z, e, d, i, s));
        }
    }
}

} // verus!
