//! The merge itself: reading rule sources, routing their rules to the allow or the block
//! list, merging both lists (allow rules win), and the final audits of the merged lists.
use vstd::prelude::*;

use crate::coverage::{coverage_of, spec_covers_block_rule, views, DomainCoverage};
use crate::index::KeySet;
use crate::laws::lemma_merged_lists_disjoint;
use crate::merge::{compact_domain_rules, keep_rule, spec_compact};
use crate::rule::{adblock_domain_rule, domain_key, has_prefix, spec_adblock_rule, spec_domain_key, spec_valid, valid};
use crate::text::{chars_of, string_of, trim, trim_chars};

verus! {

// ---------------------------------------------------------------------------
// Lines of a source
// ---------------------------------------------------------------------------

/// The pieces of `t` between line feeds (one more piece than there are line feeds).
pub open spec fn split_lf(t: Seq<char>) -> Seq<Seq<char>>
    decreases t.len(),
{
    if t.len() == 0 {
        seq![Seq::<char>::empty()]
    } else {
        let p = split_lf(t.drop_last());
        if t.last() == '\n' {
            p.push(Seq::<char>::empty())
        } else {
            p.update(p.len() - 1, p.last().push(t.last()))
        }
    }
}

pub(crate) proof fn lemma_split_lf_nonempty(t: Seq<char>)
    ensures
        split_lf(t).len() >= 1,
    decreases t.len(),
{
    if t.len() > 0 {
        lemma_split_lf_nonempty(t.drop_last());
    }
}

/// `spec_valid` as a predicate.
pub open spec fn is_rule_line() -> spec_fn(Seq<char>) -> bool {
    |l: Seq<char>| spec_valid(l)
}

/// The rules of a source text: its lines that are rules, trimmed, in order.
///
/// A line ending `\r\n` leaves a `\r` that trimming removes, and an empty last piece is no
/// rule, so these are exactly the rules that `str::lines` and `str::trim` give.
pub open spec fn source_rules(text: Seq<char>) -> Seq<Seq<char>> {
    split_lf(text).filter(is_rule_line()).map_values(|l: Seq<char>| trim(l))
}

/// The rules of a source text: its lines that are rules, trimmed, in order.
pub fn rule_lines(text: &str) -> (res: Vec<String>)
    ensures
        views(res@) == source_rules(text@),
{
    let t = chars_of(text);
    let n = t.len();
    let ghost tv = t@;
    let mut out: Vec<String> = Vec::new();
    let mut cur: Vec<char> = Vec::new();
    let mut i: usize = 0;
    proof {
        reveal(Seq::filter);
    }
    while i < n
        invariant
            i <= n == tv.len(),
            t@ == tv,
            split_lf(tv.take(i as int)).len() >= 1,
            cur@ == split_lf(tv.take(i as int)).last(),
            views(out@) == split_lf(tv.take(i as int)).drop_last().filter(is_rule_line()).map_values(
                |l: Seq<char>| trim(l),
            ),
        decreases n - i,
    {
        let ghost prev = split_lf(tv.take(i as int));
        assert(tv.take(i + 1).drop_last() =~= tv.take(i as int));
        assert(tv.take(i + 1).last() == tv[i as int]);
        if t[i] == '\n' {
            let line = string_of(&cur);
            let keep = valid(line.as_str());
            let ghost before = out@;
            if keep {
                let tc = trim_chars(&cur);
                out.push(string_of(&tc));
            }
            proof {
                reveal(Seq::filter);
                let next = split_lf(tv.take(i + 1));
                assert(next == prev.push(Seq::<char>::empty()));
                assert(next.drop_last() =~= prev);
                assert(prev =~= prev.drop_last().push(prev.last()));
                let f = prev.drop_last().filter(is_rule_line());
                assert(prev.filter(is_rule_line()) == if spec_valid(prev.last()) {
                    f.push(prev.last())
                } else {
                    f
                });
                if keep {
                    assert(views(out@) =~= views(before).push(trim(prev.last())));
                    assert(f.push(prev.last()).map_values(|l: Seq<char>| trim(l)) =~= f.map_values(
                        |l: Seq<char>| trim(l),
                    ).push(trim(prev.last())));
                }
                lemma_split_lf_nonempty(tv.take(i + 1));
            }
            cur = Vec::new();
        } else {
            let c = t[i];
            cur.push(c);
            proof {
                let next = split_lf(tv.take(i + 1));
                assert(next == prev.update(prev.len() - 1, prev.last().push(c)));
                assert(next.drop_last() =~= prev.drop_last());
            }
        }
        i = i + 1;
    }
    let line = string_of(&cur);
    let ghost before = out@;
    let ghost all = split_lf(tv);
    assert(tv.take(n as int) =~= tv);
    let keep = valid(line.as_str());
    if keep {
        let tc = trim_chars(&cur);
        out.push(string_of(&tc));
    }
    proof {
        reveal(Seq::filter);
        assert(all =~= all.drop_last().push(all.last()));
        let f = all.drop_last().filter(is_rule_line());
        assert(all.filter(is_rule_line()) == if spec_valid(all.last()) {
            f.push(all.last())
        } else {
            f
        });
        if keep {
            assert(views(out@) =~= views(before).push(trim(all.last())));
            assert(f.push(all.last()).map_values(|l: Seq<char>| trim(l)) =~= f.map_values(
                |l: Seq<char>| trim(l),
            ).push(trim(all.last())));
        }
    }
    out
}


// ---------------------------------------------------------------------------
// Routing rules of upstream sources
// ---------------------------------------------------------------------------

/// The kind of an upstream rule source.
#[derive(Clone, Copy, Debug)]
pub enum SourceKind {
    /// A blocklist: its exception rules (`@@`) are allow rules, the rest block rules.
    Filter,
    /// An allowlist: all its rules are allow rules, made exceptions (`@@`) where they are not.
    Whitelist,
}

/// Where a rule of a source of this kind goes (`true`: the allow list) and as what text.
pub open spec fn route(kind: SourceKind, rule: Seq<char>) -> (bool, Seq<char>) {
    match kind {
        SourceKind::Whitelist => (true, if has_prefix(rule, "@@"@) { rule } else { "@@"@ + rule }),
        SourceKind::Filter => (has_prefix(rule, "@@"@), rule),
    }
}

/// Where upstream rules go, by their first two characters: a rule of a blocklist goes to
/// the allow list exactly when it begins with `@@`, unchanged; every rule of an allowlist
/// goes to the allow list, as it is when it begins with `@@` and with `@@` put in front
/// otherwise.
pub proof fn lemma_route_by_exception_mark(rule: Seq<char>)
    ensures
        route(SourceKind::Filter, rule) == (rule.len() >= 2 && rule[0] == '@' && rule[1] == '@', rule),
        route(SourceKind::Whitelist, rule) == (
            true,
            if rule.len() >= 2 && rule[0] == '@' && rule[1] == '@' { rule } else { seq!['@', '@'] + rule },
        ),
{
    reveal_strlit("@@");
    if rule.len() >= 2 && rule[0] == '@' && rule[1] == '@' {
        assert(rule.take(2) =~= "@@"@);
    } else if has_prefix(rule, "@@"@) {
        assert(rule.take(2)[0] == rule[0]);
        assert(rule.take(2)[1] == rule[1]);
    }
    assert("@@"@ =~= seq!['@', '@']);
}

/// Routes one rule of a source of this kind: to the allow list (`true`) or the block list,
/// with the text it is stored as.
pub fn route_rule(kind: SourceKind, rule: &str) -> (res: (bool, String))
    ensures
        res.0 == route(kind, rule@).0,
        res.1@ == route(kind, rule@).1,
{
    let c = chars_of(rule);
    let is_exception = crate::rule::starts_with(&c, "@@");
    match kind {
        SourceKind::Whitelist => {
            if is_exception {
                (true, string_of(&c))
            } else {
                let mut v = chars_of("@@");
                let mut i: usize = 0;
                let n = c.len();
                let ghost p = v@;
                while i < n
                    invariant
                        i <= n == c@.len(),
                        v@ == p + c@.take(i as int),
                    decreases n - i,
                {
                    v.push(c[i]);
                    i = i + 1;
                    assert(p + c@.take(i as int) =~= (p + c@.take(i - 1)).push(c@[i - 1]));
                }
                assert(c@.take(n as int) =~= c@);
                (true, string_of(&v))
            }
        },
        SourceKind::Filter => (is_exception, string_of(&c)),
    }
}

/// The rules of `rules` that go to one list (`to_allow`), as stored.
pub open spec fn routed(kind: SourceKind, rules: Seq<Seq<char>>, to_allow: bool) -> Seq<Seq<char>> {
    rules.filter(|r: Seq<char>| route(kind, r).0 == to_allow).map_values(|r: Seq<char>| route(kind, r).1)
}

/// Adds the rules of an upstream source text to the allow and block lists.
pub fn add_source_rules(kind: SourceKind, text: &str, allow: &mut Vec<String>, block: &mut Vec<String>)
    ensures
        views(final(allow)@) == views(old(allow)@) + routed(kind, source_rules(text@), true),
        views(final(block)@) == views(old(block)@) + routed(kind, source_rules(text@), false),
{
    let rules = rule_lines(text);
    let ghost rv = views(rules@);
    let ghost a0 = views(allow@);
    let ghost b0 = views(block@);
    let n = rules.len();
    let mut i: usize = 0;
    while i < n
        invariant
            i <= n == rules@.len(),
            rv == views(rules@),
            views(allow@) == a0 + routed(kind, rv.take(i as int), true),
            views(block@) == b0 + routed(kind, rv.take(i as int), false),
        decreases n - i,
    {
        let (to_allow, text_rule) = route_rule(kind, rules[i].as_str());
        let ghost r = rules@[i as int]@;
        let ghost pa = |x: Seq<char>| route(kind, x).0 == true;
        let ghost pb = |x: Seq<char>| route(kind, x).0 == false;
        proof {
            reveal(Seq::filter);
            assert(rv.take(i + 1).drop_last() =~= rv.take(i as int));
            assert(rv.take(i + 1).last() == r);
        }
        let ghost ba = views(allow@);
        let ghost bb = views(block@);
        if to_allow {
            allow.push(text_rule);
            proof {
                assert(views(allow@) =~= ba.push(route(kind, r).1));
                assert(rv.take(i + 1).filter(pa) == rv.take(i as int).filter(pa).push(r));
                assert(rv.take(i + 1).filter(pb) == rv.take(i as int).filter(pb));
                assert(rv.take(i as int).filter(pa).push(r).map_values(|x: Seq<char>| route(kind, x).1)
                    =~= rv.take(i as int).filter(pa).map_values(|x: Seq<char>| route(kind, x).1).push(route(kind, r).1));
                assert(views(allow@) =~= a0 + routed(kind, rv.take(i + 1), true));
            }
        } else {
            block.push(text_rule);
            proof {
                assert(views(block@) =~= bb.push(route(kind, r).1));
                assert(rv.take(i + 1).filter(pb) == rv.take(i as int).filter(pb).push(r));
                assert(rv.take(i + 1).filter(pa) == rv.take(i as int).filter(pa));
                assert(rv.take(i as int).filter(pb).push(r).map_values(|x: Seq<char>| route(kind, x).1)
                    =~= rv.take(i as int).filter(pb).map_values(|x: Seq<char>| route(kind, x).1).push(route(kind, r).1));
                assert(views(block@) =~= b0 + routed(kind, rv.take(i + 1), false));
            }
        }
        i = i + 1;
    }
    assert(rv.take(n as int) =~= rv);
}


// ---------------------------------------------------------------------------
// Merging
// ---------------------------------------------------------------------------

/// `s` with each run of equal neighbours reduced to one element.
pub open spec fn spec_dedup(s: Seq<Seq<char>>) -> Seq<Seq<char>>
    decreases s.len(),
{
    if s.len() <= 1 {
        s
    } else {
        let p = spec_dedup(s.drop_last());
        if s.last() == s[s.len() - 2] {
            p
        } else {
            p.push(s.last())
        }
    }
}

pub(crate) proof fn lemma_dedup_last(s: Seq<Seq<char>>)
    requires
        s.len() >= 1,
    ensures
        spec_dedup(s).len() >= 1,
        spec_dedup(s).last() == s.last(),
    decreases s.len(),
{
    if s.len() > 1 {
        lemma_dedup_last(s.drop_last());
    }
}

/// Removes neighbouring duplicates.
pub fn dedup_rules(rules: Vec<String>) -> (res: Vec<String>)
    ensures
        views(res@) == spec_dedup(views(rules@)),
{
    let ghost rv = views(rules@);
    let n = rules.len();
    let mut out: Vec<String> = Vec::new();
    let mut i: usize = 0;
    while i < n
        invariant
            i <= n == rules@.len(),
            rv == views(rules@),
            views(out@) == spec_dedup(rv.take(i as int)),
        decreases n - i,
    {
        let ghost before = views(out@);
        assert(rv.take(i + 1).drop_last() =~= rv.take(i as int));
        assert(rv.take(i + 1).last() == rules@[i as int]@);
        if i == 0 {
            out.push(rules[i].clone());
            assert(views(out@) =~= rv.take(1));
        } else {
            assert(rv.take(i + 1)[i - 1] == rules@[i - 1]@);
            proof {
                lemma_dedup_last(rv.take(i as int));
                assert(rv.take(i as int).last() == rules@[i - 1]@);
            }
            if rules[i] != rules[i - 1] {
                out.push(rules[i].clone());
                assert(views(out@) =~= before.push(rules@[i as int]@));
            }
        }
        i = i + 1;
    }
    assert(rv.take(n as int) =~= rv);
    out
}

/// The merged allow list: the allow rules compacted, without duplicates.
pub open spec fn spec_merged_allow(allow: Seq<Seq<char>>) -> Seq<Seq<char>> {
    spec_dedup(spec_compact(allow))
}

/// The block rules that the collected allow rules neither cover nor hold themselves.
pub open spec fn uncovered_block_rules(allow: Seq<Seq<char>>, block: Seq<Seq<char>>) -> Seq<Seq<char>> {
    block.filter(|r: Seq<char>| !spec_covers_block_rule(coverage_of(allow), r) && !allow.contains(r))
}

/// The merged block list: the block rules that the collected allow rules neither cover nor
/// hold, compacted, without duplicates.
pub open spec fn spec_merged_block(allow: Seq<Seq<char>>, block: Seq<Seq<char>>) -> Seq<Seq<char>> {
    spec_dedup(spec_compact(uncovered_block_rules(allow, block)))
}

/// The texts of `rules`, each held as the key `(false, text, "")`.
fn text_set(rules: &Vec<String>) -> (res: KeySet)
    ensures
        res.wf(),
        forall|r: Seq<char>| #[trigger] res.keys().contains((false, r, Seq::<char>::empty())) <==> views(rules@).contains(r),
{
    let mut set = KeySet::new();
    let empty: Vec<char> = Vec::new();
    let n = rules.len();
    let mut i: usize = 0;
    while i < n
        invariant
            i <= n == rules@.len(),
            set.wf(),
            empty@ == Seq::<char>::empty(),
            forall|r: Seq<char>| #[trigger] set.keys().contains((false, r, Seq::<char>::empty()))
                <==> views(rules@.take(i as int)).contains(r),
        decreases n - i,
    {
        let c = chars_of(rules[i].as_str());
        assert(c@.skip(0) =~= c@);
        let ghost before = set.keys();
        set.insert(false, &c, 0, &empty);
        proof {
            let prev = views(rules@.take(i as int));
            let next = views(rules@.take(i + 1));
            assert(next =~= prev.push(c@));
            assert forall|r: Seq<char>| #[trigger] set.keys().contains((false, r, Seq::<char>::empty()))
                <==> next.contains(r) by {
                if next.contains(r) && r != c@ {
                    let k = choose|k: int| 0 <= k < next.len() && next[k] == r;
                    assert(prev[k] == r);
                }
                if prev.contains(r) {
                    let k = choose|k: int| 0 <= k < prev.len() && prev[k] == r;
                    assert(next[k] == r);
                }
                assert(next[prev.len() as int] == c@);
                assert(before.contains((false, r, Seq::<char>::empty())) <==> prev.contains(r));
            }
        }
        i = i + 1;
    }
    assert(rules@.take(n as int) =~= rules@);
    set
}

/// Keeps the block rules that the allow rules neither cover nor hold themselves.
fn uncovered_by(allow: &Vec<String>, block: &Vec<String>) -> (res: Vec<String>)
    ensures
        views(res@) == uncovered_block_rules(views(allow@), views(block@)),
{
    let coverage = DomainCoverage::from_rules(allow.as_slice());
    let texts = text_set(allow);
    let empty: Vec<char> = Vec::new();
    let ghost av = views(allow@);
    let ghost bv = views(block@);
    let ghost pred = |r: Seq<char>| !spec_covers_block_rule(coverage_of(av), r) && !av.contains(r);
    let n = block.len();
    let mut out: Vec<String> = Vec::new();
    let mut i: usize = 0;
    while i < n
        invariant
            i <= n == block@.len(),
            av == views(allow@),
            bv == views(block@),
            coverage.wf(),
            coverage@ == coverage_of(av),
            texts.wf(),
            empty@ == Seq::<char>::empty(),
            forall|r: Seq<char>| #[trigger] texts.keys().contains((false, r, Seq::<char>::empty())) <==> av.contains(r),
            pred == (|r: Seq<char>| !spec_covers_block_rule(coverage_of(av), r) && !av.contains(r)),
            views(out@) == bv.take(i as int).filter(pred),
        decreases n - i,
    {
        let c = chars_of(block[i].as_str());
        assert(c@.skip(0) =~= c@);
        let dropped = coverage.covers_block_rule(block[i].as_str()) || texts.contains(false, &c, 0, &empty);
        proof {
            reveal(Seq::filter);
            assert(bv.take(i + 1).drop_last() =~= bv.take(i as int));
            assert(bv.take(i + 1).last() == block@[i as int]@);
            assert(dropped == !pred(block@[i as int]@));
        }
        let ghost before = views(out@);
        if !dropped {
            out.push(block[i].clone());
            assert(views(out@) =~= before.push(block@[i as int]@));
        }
        i = i + 1;
    }
    assert(bv.take(n as int) =~= bv);
    out
}

/// Merges the collected allow and block rules: the allow rules are compacted; block rules
/// that the collected allow rules cover or hold are dropped (allow rules win: a domain with
/// an exception rule, of any options, leaves the block list) and the rest compacted. Both
/// lists come out sorted and without duplicates.
pub fn merge_rules(allow: Vec<String>, block: Vec<String>) -> (res: (Vec<String>, Vec<String>))
    ensures
        views(res.0@) == spec_merged_allow(views(allow@)),
        views(res.1@) == spec_merged_block(views(allow@), views(block@)),
        forall|x: Seq<char>, y: Seq<char>|
            #[trigger] views(allow@).contains(x) && #[trigger] views(res.1@).contains(y) ==> match spec_adblock_rule(x) {
                Some((e, d, _)) => !(e && spec_domain_key(y) == Some(d)),
                None => true,
            },
{
    let candidates = uncovered_by(&allow, &block);
    let ghost av = views(allow@);
    let ghost bv = views(block@);
    let merged_allow = dedup_rules(compact_domain_rules(allow));
    let merged_block = dedup_rules(compact_domain_rules(candidates));
    proof {
        assert forall|x: Seq<char>, y: Seq<char>|
            #[trigger] av.contains(x) && #[trigger] views(merged_block@).contains(y) implies match spec_adblock_rule(x) {
                Some((e, d, _)) => !(e && spec_domain_key(y) == Some(d)),
                None => true,
            } by {
            lemma_merged_lists_disjoint(av, bv, y, x);
        }
    }
    (merged_allow, merged_block)
}


// ---------------------------------------------------------------------------
// Audits of the merged lists
// ---------------------------------------------------------------------------

/// At most the first `n` elements of `s`.
pub open spec fn first_n<A>(s: Seq<A>, n: int) -> Seq<A> {
    if s.len() <= n {
        s
    } else {
        s.take(n)
    }
}

/// How many offending rules an audit reports at most.
pub const REPORT_LIMIT: usize = 20;

/// The views of a sequence of string pairs.
pub open spec fn pair_views(s: Seq<(String, String)>) -> Seq<(Seq<char>, Seq<char>)> {
    s.map_values(|p: (String, String)| (p.0@, p.1@))
}

/// The normalised domain of an adblock domain rule (empty for other rules).
pub open spec fn adblock_domain(rule: Seq<char>) -> Seq<char> {
    match spec_adblock_rule(rule) {
        Some((_, d, _)) => d,
        None => Seq::<char>::empty(),
    }
}

/// The rules of `rules` that a parent domain covers among `rules`, with their domains,
/// at most `REPORT_LIMIT` of them, in order.
pub open spec fn spec_covered_subdomains(rules: Seq<Seq<char>>) -> Seq<(Seq<char>, Seq<char>)> {
    first_n(
        rules.filter(|r: Seq<char>| !keep_rule(coverage_of(rules), r)).map_values(
            |r: Seq<char>| (r, adblock_domain(r)),
        ),
        REPORT_LIMIT as int,
    )
}

/// Appending to a sequence and keeping at most `n` elements.
proof fn lemma_first_n_push<A>(s: Seq<A>, x: A, n: int)
    requires
        n >= 0,
    ensures
        first_n(s.push(x), n) == if s.len() < n { s.push(x) } else { first_n(s, n) },
{
    if s.len() >= n {
        assert(s.push(x).take(n) =~= s.take(n));
        if s.len() == n {
            assert(s.take(n) =~= s);
        }
    }
}

/// The rules of a list that a parent domain covers within the list, with their domains
/// (at most `REPORT_LIMIT`); none remain in a compacted list.
pub fn covered_subdomain_rules(rules: &Vec<String>) -> (res: Vec<(String, String)>)
    ensures
        pair_views(res@) == spec_covered_subdomains(views(rules@)),
{
    let coverage = DomainCoverage::from_rules(rules.as_slice());
    let ghost rv = views(rules@);
    let ghost pred = |r: Seq<char>| !keep_rule(coverage_of(rv), r);
    let ghost f = |r: Seq<char>| (r, adblock_domain(r));
    let n = rules.len();
    let mut out: Vec<(String, String)> = Vec::new();
    let mut i: usize = 0;
    while i < n
        invariant
            i <= n == rules@.len(),
            rv == views(rules@),
            coverage.wf(),
            coverage@ == coverage_of(rv),
            pred == (|r: Seq<char>| !keep_rule(coverage_of(rv), r)),
            f == (|r: Seq<char>| (r, adblock_domain(r))),
            pair_views(out@) == first_n(rv.take(i as int).filter(pred).map_values(f), REPORT_LIMIT as int),
        decreases n - i,
    {
        let ghost r = rules@[i as int]@;
        let ghost prev = rv.take(i as int).filter(pred).map_values(f);
        proof {
            reveal(Seq::filter);
            assert(rv.take(i + 1).drop_last() =~= rv.take(i as int));
            assert(rv.take(i + 1).last() == r);
        }
        let hit = match adblock_domain_rule(rules[i].as_str()) {
            Some(domain_rule) => {
                if coverage.has_covering_parent(&domain_rule) {
                    Some(domain_rule.domain)
                } else {
                    None
                }
            },
            None => None,
        };
        proof {
            assert(hit is Some == pred(r));
        }
        if let Some(domain) = hit {
            assert(domain@ == adblock_domain(r));
            let ghost before = pair_views(out@);
            proof {
                assert(rv.take(i as int).filter(pred).push(r).map_values(f) =~= prev.push(f(r)));
                lemma_first_n_push(prev, f(r), REPORT_LIMIT as int);
            }
            if out.len() < REPORT_LIMIT {
                out.push((rules[i].clone(), domain));
                assert(pair_views(out@) =~= before.push(f(r)));
            }
        }
        i = i + 1;
    }
    assert(rv.take(n as int) =~= rv);
    out
}

/// The block rules that an allow list covers and that name a domain, with that domain,
/// at most `REPORT_LIMIT` of them, in order.
pub open spec fn spec_overlap(block: Seq<Seq<char>>, allow: Seq<Seq<char>>) -> Seq<(Seq<char>, Seq<char>)> {
    first_n(
        block.filter(|r: Seq<char>| spec_domain_key(r) is Some && spec_covers_block_rule(coverage_of(allow), r)).map_values(
            |r: Seq<char>| (r, spec_domain_key(r)->0),
        ),
        REPORT_LIMIT as int,
    )
}

/// The block rules that the allow list covers, with their domains (at most
/// `REPORT_LIMIT`); none remain after a merge.
pub fn overlapping_rules(block: &Vec<String>, allow: &Vec<String>) -> (res: Vec<(String, String)>)
    ensures
        pair_views(res@) == spec_overlap(views(block@), views(allow@)),
{
    let coverage = DomainCoverage::from_rules(allow.as_slice());
    let ghost bv = views(block@);
    let ghost av = views(allow@);
    let ghost pred = |r: Seq<char>| spec_domain_key(r) is Some && spec_covers_block_rule(coverage_of(av), r);
    let ghost f = |r: Seq<char>| (r, spec_domain_key(r)->0);
    let n = block.len();
    let mut out: Vec<(String, String)> = Vec::new();
    let mut i: usize = 0;
    while i < n
        invariant
            i <= n == block@.len(),
            bv == views(block@),
            coverage.wf(),
            coverage@ == coverage_of(av),
            pred == (|r: Seq<char>| spec_domain_key(r) is Some && spec_covers_block_rule(coverage_of(av), r)),
            f == (|r: Seq<char>| (r, spec_domain_key(r)->0)),
            pair_views(out@) == first_n(bv.take(i as int).filter(pred).map_values(f), REPORT_LIMIT as int),
        decreases n - i,
    {
        let ghost r = block@[i as int]@;
        let ghost prev = bv.take(i as int).filter(pred).map_values(f);
        proof {
            reveal(Seq::filter);
            assert(bv.take(i + 1).drop_last() =~= bv.take(i as int));
            assert(bv.take(i + 1).last() == r);
        }
        let hit = match domain_key(block[i].as_str()) {
            Some(key) => {
                if coverage.covers_block_rule(block[i].as_str()) {
                    Some(key)
                } else {
                    None
                }
            },
            None => None,
        };
        proof {
            assert(hit is Some == pred(r));
        }
        if let Some(key) = hit {
            assert(key@ == spec_domain_key(r)->0);
            let ghost before = pair_views(out@);
            proof {
                assert(bv.take(i as int).filter(pred).push(r).map_values(f) =~= prev.push(f(r)));
                lemma_first_n_push(prev, f(r), REPORT_LIMIT as int);
            }
            if out.len() < REPORT_LIMIT {
                out.push((block[i].clone(), key));
                assert(pair_views(out@) =~= before.push(f(r)));
            }
        }
        i = i + 1;
    }
    assert(bv.take(n as int) =~= bv);
    out
}

/// Why merged lists fail their final audits, with the offending rules and their domains.
#[derive(Debug)]
pub enum AuditFailure {
    /// The allow list holds rules that a parent domain covers within it.
    RedundantAllow(Vec<(String, String)>),
    /// The block list holds rules that a parent domain covers within it.
    RedundantBlock(Vec<(String, String)>),
    /// The allow list covers rules of the block list.
    Overlap(Vec<(String, String)>),
}

/// The final audits of the merged lists, in order: no redundant subdomain rule in the allow
/// list, then none in the block list, then no block rule that the allow list covers. The
/// first audit that finds offenders fails, with them.
pub fn audit_merged_lists(block: &Vec<String>, allow: &Vec<String>) -> (res: Result<(), AuditFailure>)
    ensures
        match res {
            Ok(()) => {
                &&& spec_covered_subdomains(views(allow@)).len() == 0
                &&& spec_covered_subdomains(views(block@)).len() == 0
                &&& spec_overlap(views(block@), views(allow@)).len() == 0
            },
            Err(AuditFailure::RedundantAllow(v)) => {
                &&& v@.len() > 0
                &&& pair_views(v@) == spec_covered_subdomains(views(allow@))
            },
            Err(AuditFailure::RedundantBlock(v)) => {
                &&& spec_covered_subdomains(views(allow@)).len() == 0
                &&& v@.len() > 0
                &&& pair_views(v@) == spec_covered_subdomains(views(block@))
            },
            Err(AuditFailure::Overlap(v)) => {
                &&& spec_covered_subdomains(views(allow@)).len() == 0
                &&& spec_covered_subdomains(views(block@)).len() == 0
                &&& v@.len() > 0
                &&& pair_views(v@) == spec_overlap(views(block@), views(allow@))
            },
        },
{
    let redundant_allow = covered_subdomain_rules(allow);
    if redundant_allow.len() > 0 {
        return Err(AuditFailure::RedundantAllow(redundant_allow));
    }
    let redundant_block = covered_subdomain_rules(block);
    if redundant_block.len() > 0 {
        return Err(AuditFailure::RedundantBlock(redundant_block));
    }
    let overlap = overlapping_rules(block, allow);
    if overlap.len() > 0 {
        return Err(AuditFailure::Overlap(overlap));
    }
    Ok(())
}

} // verus!
