//! Which domains a set of rules covers: a domain is covered by a rule for the same domain
//! or for one of its parent domains (`a.b.c` has the parents `b.c` and `c`).
use vstd::prelude::*;

use crate::index::KeySet;
use crate::rule::{adblock_domain_rule, host_domain_key, spec_adblock_rule, spec_host_domain, DomainRule};
use crate::text::{chars_of, string_of};

verus! {

/// The model of a coverage: the broad rules as `(exception, domain)` and every rule as
/// `(exception, domain, options)`.
pub type CoverageView = (Set<(bool, Seq<char>)>, Set<(bool, Seq<char>, Seq<char>)>);

/// A rule with these options applies to the whole domain: `^` or `^$important`.
pub open spec fn is_broad_suffix(s: Seq<char>) -> bool {
    s == "^"@ || s == "^$important"@
}

/// The coverage after recording the rule `r`.
pub open spec fn spec_insert(c: CoverageView, r: (bool, Seq<char>, Seq<char>)) -> CoverageView {
    (if is_broad_suffix(r.2) { c.0.insert((r.0, r.1)) } else { c.0 }, c.1.insert(r))
}

/// `o` is a broad rule for `(exception, domain)` as `p` gives them.
pub open spec fn is_broad_rule_for(o: Option<(bool, Seq<char>, Seq<char>)>, p: (bool, Seq<char>)) -> bool {
    match o {
        Some((e, d, s)) => e == p.0 && d == p.1 && is_broad_suffix(s),
        None => false,
    }
}

/// The coverage recorded from the adblock domain rules among `rules`.
pub open spec fn coverage_of(rules: Seq<Seq<char>>) -> CoverageView {
    (
        Set::new(|p: (bool, Seq<char>)| exists|i: int|
            0 <= i < rules.len() && #[trigger] is_broad_rule_for(spec_adblock_rule(rules[i]), p)),
        Set::new(|r: (bool, Seq<char>, Seq<char>)| exists|i: int|
            0 <= i < rules.len() && #[trigger] spec_adblock_rule(rules[i]) == Some(r)),
    )
}

/// The views of a sequence of strings.
pub open spec fn views(rules: Seq<String>) -> Seq<Seq<char>> {
    rules.map_values(|r: String| r@)
}

/// `domain` holds a broad rule of this kind.
pub open spec fn has_broad(c: CoverageView, exception: bool, domain: Seq<char>) -> bool {
    c.0.contains((exception, domain))
}

/// `domain` holds a broad rule of this kind, or a rule of this kind with these options.
pub open spec fn covers_with_suffix(
    c: CoverageView,
    exception: bool,
    domain: Seq<char>,
    suffix: Seq<char>,
) -> bool {
    c.0.contains((exception, domain)) || c.1.contains((exception, domain, suffix))
}

/// `domain[i]` is a dot, so `domain[i + 1..]` is a parent domain of `domain`.
pub open spec fn is_parent_cut(domain: Seq<char>, i: int) -> bool {
    0 <= i < domain.len() && domain[i] == '.'
}

/// Some parent domain of `domain` covers it with these options.
pub open spec fn parent_covers(
    c: CoverageView,
    exception: bool,
    domain: Seq<char>,
    suffix: Seq<char>,
) -> bool {
    exists|i: int| #[trigger]
        is_parent_cut(domain, i) && covers_with_suffix(c, exception, domain.skip(i + 1), suffix)
}

/// `domain` (when `include_self`) or one of its parent domains covers it with these options.
pub open spec fn spec_has_covering_domain(
    c: CoverageView,
    exception: bool,
    domain: Seq<char>,
    suffix: Seq<char>,
    include_self: bool,
) -> bool {
    (include_self && covers_with_suffix(c, exception, domain, suffix)) || parent_covers(
        c,
        exception,
        domain,
        suffix,
    )
}

/// `domain` or one of its parent domains holds a broad rule of this kind.
pub open spec fn spec_has_broad_covering_domain(
    c: CoverageView,
    exception: bool,
    domain: Seq<char>,
) -> bool {
    has_broad(c, exception, domain) || exists|i: int| #[trigger]
        is_parent_cut(domain, i) && has_broad(c, exception, domain.skip(i + 1))
}

/// `domain` holds a rule of this kind, whatever its options.
pub open spec fn has_rule_on(c: CoverageView, exception: bool, domain: Seq<char>) -> bool {
    exists|s: Seq<char>| #[trigger] c.1.contains((exception, domain, s))
}

/// What a parent domain `p` is asked for: a broad rule of this kind (`broad_only`), or a
/// rule of this kind that is broad or has these options.
spec fn level_covers(
    c: CoverageView,
    exception: bool,
    p: Seq<char>,
    suffix: Seq<char>,
    broad_only: bool,
) -> bool {
    if broad_only {
        has_broad(c, exception, p)
    } else {
        covers_with_suffix(c, exception, p, suffix)
    }
}

/// Some parent domain of `domain` answers what `level_covers` asks.
spec fn parent_level(
    c: CoverageView,
    exception: bool,
    domain: Seq<char>,
    suffix: Seq<char>,
    broad_only: bool,
) -> bool {
    exists|i: int| #[trigger]
        is_parent_cut(domain, i) && level_covers(c, exception, domain.skip(i + 1), suffix, broad_only)
}

/// The two questions a parent walk answers are covering by a parent, and a broad rule at a
/// parent.
proof fn lemma_parent_level(c: CoverageView, exception: bool, d: Seq<char>, s: Seq<char>)
    ensures
        parent_level(c, exception, d, s, false) == parent_covers(c, exception, d, s),
        parent_level(c, exception, d, s, true) == exists|i: int| #[trigger]
            is_parent_cut(d, i) && has_broad(c, exception, d.skip(i + 1)),
{
    if parent_level(c, exception, d, s, false) {
        let i = choose|i: int| #[trigger] is_parent_cut(d, i) && level_covers(c, exception, d.skip(i + 1), s, false);
        assert(is_parent_cut(d, i) && covers_with_suffix(c, exception, d.skip(i + 1), s));
    }
    if parent_covers(c, exception, d, s) {
        let i = choose|i: int| #[trigger] is_parent_cut(d, i) && covers_with_suffix(c, exception, d.skip(i + 1), s);
        assert(is_parent_cut(d, i) && level_covers(c, exception, d.skip(i + 1), s, false));
    }
    if parent_level(c, exception, d, s, true) {
        let i = choose|i: int| #[trigger] is_parent_cut(d, i) && level_covers(c, exception, d.skip(i + 1), s, true);
        assert(is_parent_cut(d, i) && has_broad(c, exception, d.skip(i + 1)));
    }
    if exists|i: int| #[trigger] is_parent_cut(d, i) && has_broad(c, exception, d.skip(i + 1)) {
        let i = choose|i: int| #[trigger] is_parent_cut(d, i) && has_broad(c, exception, d.skip(i + 1));
        assert(is_parent_cut(d, i) && level_covers(c, exception, d.skip(i + 1), s, true));
    }
}

/// An allow coverage covers a block rule when the domain the rule names holds an exception
/// rule, whatever its options (a domain on both lists leaves the block list); or, for a
/// blocking adblock rule, when a parent domain holds an exception rule that is broad or has
/// the same options; or, for a hosts entry, when a parent domain holds a broad exception
/// rule.
pub open spec fn spec_covers_block_rule(c: CoverageView, rule: Seq<char>) -> bool {
    match spec_adblock_rule(rule) {
        Some((e, d, s)) => has_rule_on(c, true, d) || (!e && parent_covers(c, true, d, s)),
        None => match spec_host_domain(rule) {
            Some(d) => has_rule_on(c, true, d) || spec_has_broad_covering_domain(c, true, d),
            None => false,
        },
    }
}

impl DomainRule {
    /// Whether the rule applies to its whole domain (options `^` or `^$important`).
    pub fn is_broad(&self) -> (res: bool)
        ensures
            res == is_broad_suffix(self.suffix@),
    {
        self.suffix == String::from_str("^") || self.suffix == String::from_str("^$important")
    }
}

/// The domains covered by a set of rules.
pub struct DomainCoverage {
    broad_domains: KeySet,
    suffix_domains: KeySet,
    ruled_domains: KeySet,
}

impl View for DomainCoverage {
    type V = CoverageView;

    closed spec fn view(&self) -> CoverageView {
        (
            Set::new(|p: (bool, Seq<char>)| self.broad_domains.keys().contains((p.0, p.1, Seq::<char>::empty()))),
            self.suffix_domains.keys(),
        )
    }
}

impl DomainCoverage {
    /// The indexes are consistent, and `ruled_domains` lists, with empty options, exactly
    /// the `(exception, domain)` pairs that some recorded rule has.
    pub closed spec fn wf(&self) -> bool {
        &&& self.broad_domains.wf()
        &&& self.suffix_domains.wf()
        &&& self.ruled_domains.wf()
        &&& forall|e: bool, d: Seq<char>| #[trigger]
            self.ruled_domains.keys().contains((e, d, Seq::<char>::empty()))
                <==> exists|s: Seq<char>| self.suffix_domains.keys().contains((e, d, s))
    }

    /// A coverage that covers nothing.
    pub fn new() -> (res: DomainCoverage)
        ensures
            res.wf(),
            res@ == (Set::<(bool, Seq<char>)>::empty(), Set::<(bool, Seq<char>, Seq<char>)>::empty()),
    {
        let res = DomainCoverage {
            broad_domains: KeySet::new(),
            suffix_domains: KeySet::new(),
            ruled_domains: KeySet::new(),
        };
        assert(res@.0 =~= Set::<(bool, Seq<char>)>::empty());
        res
    }

    /// Records a rule: always with its options, and also as broad when it is broad.
    pub fn insert(&mut self, rule: DomainRule)
        requires
            old(self).wf(),
        ensures
            final(self).wf(),
            final(self)@ == spec_insert(old(self)@, rule@),
    {
        let d = chars_of(rule.domain.as_str());
        let s = chars_of(rule.suffix.as_str());
        let empty: Vec<char> = Vec::new();
        let ghost old_view = self@;
        let ghost old_suffix = self.suffix_domains.keys();
        let ghost old_ruled = self.ruled_domains.keys();
        assert(d@.skip(0) =~= d@);
        if rule.is_broad() {
            self.broad_domains.insert(rule.exception, &d, 0, &empty);
        }
        self.suffix_domains.insert(rule.exception, &d, 0, &s);
        self.ruled_domains.insert(rule.exception, &d, 0, &empty);
        assert(self@.0 =~= spec_insert(old_view, rule@).0);
        assert forall|e: bool, dm: Seq<char>| #[trigger]
            self.ruled_domains.keys().contains((e, dm, Seq::<char>::empty()))
                <==> exists|sf: Seq<char>| self.suffix_domains.keys().contains((e, dm, sf)) by {
            if e == rule.exception && dm == rule.domain@ {
                assert(self.suffix_domains.keys().contains((e, dm, rule.suffix@)));
            } else {
                assert(old_ruled.contains((e, dm, Seq::<char>::empty()))
                    <==> exists|sf: Seq<char>| old_suffix.contains((e, dm, sf)));
                if exists|sf: Seq<char>| self.suffix_domains.keys().contains((e, dm, sf)) {
                    let sf = choose|sf: Seq<char>| self.suffix_domains.keys().contains((e, dm, sf));
                    assert(old_suffix.contains((e, dm, sf)));
                }
                if exists|sf: Seq<char>| old_suffix.contains((e, dm, sf)) {
                    let sf = choose|sf: Seq<char>| old_suffix.contains((e, dm, sf));
                    assert(self.suffix_domains.keys().contains((e, dm, sf)));
                }
            }
        }
    }

    /// The coverage recorded from the adblock domain rules among `rules`.
    pub fn from_rules(rules: &[String]) -> (res: DomainCoverage)
        ensures
            res.wf(),
            res@ == coverage_of(views(rules@)),
    {
        let mut coverage = DomainCoverage::new();
        let n = rules.len();
        let mut i: usize = 0;
        while i < n
            invariant
                i <= n == rules@.len(),
                coverage.wf(),
                coverage@ == coverage_of(views(rules@.take(i as int))),
            decreases n - i,
        {
            let ghost before = coverage@;
            let ghost prev = views(rules@.take(i as int));
            let ghost next = views(rules@.take(i + 1));
            assert(next =~= prev.push(rules@[i as int]@));
            if let Some(domain_rule) = adblock_domain_rule(rules[i].as_str()) {
                coverage.insert(domain_rule);
                proof {
                    lemma_coverage_of_push(prev, rules@[i as int]@);
                }
            } else {
                proof {
                    lemma_coverage_of_push(prev, rules@[i as int]@);
                }
            }
            i = i + 1;
        }
        assert(rules@.take(n as int) =~= rules@);
        coverage
    }

    /// Whether `domain[from..]` holds a broad rule of this kind.
    fn broad_at(&self, exception: bool, domain: &Vec<char>, from: usize) -> (res: bool)
        requires
            self.wf(),
            from <= domain@.len(),
        ensures
            res == has_broad(self@, exception, domain@.skip(from as int)),
    {
        let empty: Vec<char> = Vec::new();
        self.broad_domains.contains(exception, domain, from, &empty)
    }

    /// Whether `domain` holds a rule of this kind, whatever its options.
    fn has_rule_at(&self, exception: bool, domain: &Vec<char>) -> (res: bool)
        requires
            self.wf(),
        ensures
            res == has_rule_on(self@, exception, domain@),
    {
        let empty: Vec<char> = Vec::new();
        assert(domain@.skip(0) =~= domain@);
        assert(empty@ =~= Seq::<char>::empty());
        let res = self.ruled_domains.contains(exception, domain, 0, &empty);
        proof {
            let d = domain@;
            assert(res == self.ruled_domains.keys().contains((exception, d, Seq::<char>::empty())));
            if res {
                let s = choose|s: Seq<char>| self.suffix_domains.keys().contains((exception, d, s));
                assert(self@.1.contains((exception, d, s)));
            }
            if has_rule_on(self@, exception, d) {
                let s = choose|s: Seq<char>| self@.1.contains((exception, d, s));
                assert(self.suffix_domains.keys().contains((exception, d, s)));
            }
        }
        res
    }

    /// Whether `domain[from..]` is covered with these options.
    fn covers_at(&self, exception: bool, domain: &Vec<char>, from: usize, suffix: &Vec<char>) -> (res: bool)
        requires
            self.wf(),
            from <= domain@.len(),
        ensures
            res == covers_with_suffix(self@, exception, domain@.skip(from as int), suffix@),
    {
        self.broad_at(exception, domain, from) || self.suffix_domains.contains(
            exception,
            domain,
            from,
            suffix,
        )
    }

    /// Walks the parents of `domain`, nearest first, asking each for a broad rule of this
    /// kind (`broad_only`) or for a rule of this kind covering these options.
    fn parent_walk(&self, exception: bool, domain: &str, suffix: &Vec<char>, broad_only: bool) -> (res: bool)
        requires
            self.wf(),
        ensures
            res == parent_level(self@, exception, domain@, suffix@, broad_only),
    {
        let ghost d = domain@;
        let mut parents = parent_domains(domain);
        let ghost mut pos: int = 0;
        loop
            invariant
                self.wf(),
                d == domain@,
                0 <= pos <= d.len(),
                parents@ == d.skip(pos),
                forall|j: int| 0 <= j < pos ==> !(#[trigger] is_parent_cut(d, j)
                    && level_covers(self@, exception, d.skip(j + 1), suffix@, broad_only)),
            decreases parents@.len(),
        {
            let ghost rest = parents@;
            proof {
                lemma_dot_free_len_bound(rest);
            }
            match parents.next() {
                None => {
                    proof {
                        assert forall|j: int| #[trigger] is_parent_cut(d, j) implies j < pos by {
                            if j >= pos {
                                assert(rest[j - pos] == d[j]);
                            }
                        }
                    }
                    return false;
                },
                Some(parent) => {
                    let ghost k = dot_free_len(rest) as int;
                    let pc = chars_of(parent.as_str());
                    proof {
                        assert(rest[k] == d[pos + k]);
                        assert(rest.skip(k + 1) =~= d.skip(pos + k + 1));
                        assert forall|j: int| pos <= j < pos + k implies !#[trigger] is_parent_cut(d, j) by {
                            assert(rest[j - pos] == d[j]);
                        }
                        assert(pc@.skip(0) =~= pc@);
                    }
                    let hit = if broad_only {
                        self.broad_at(exception, &pc, 0)
                    } else {
                        self.covers_at(exception, &pc, 0, suffix)
                    };
                    if hit {
                        assert(is_parent_cut(d, pos + k));
                        return true;
                    }
                    proof {
                        pos = pos + k + 1;
                    }
                },
            }
        }
    }

    /// Whether a parent domain of `domain` covers it with these options, trying the parents
    /// nearest first.
    fn parent_covers_chars(&self, exception: bool, domain: &str, suffix: &Vec<char>) -> (res: bool)
        requires
            self.wf(),
        ensures
            res == parent_covers(self@, exception, domain@, suffix@),
    {
        proof {
            lemma_parent_level(self@, exception, domain@, suffix@);
        }
        self.parent_walk(exception, domain, suffix, false)
    }

    /// Whether `domain` or one of its parent domains holds a broad rule of this kind, trying
    /// the domain, then its parents nearest first.
    fn broad_covering_chars(&self, exception: bool, domain: &str) -> (res: bool)
        requires
            self.wf(),
        ensures
            res == spec_has_broad_covering_domain(self@, exception, domain@),
    {
        let dc = chars_of(domain);
        assert(dc@.skip(0) =~= dc@);
        if self.broad_at(exception, &dc, 0) {
            return true;
        }
        let empty: Vec<char> = Vec::new();
        proof {
            lemma_parent_level(self@, exception, domain@, empty@);
        }
        self.parent_walk(exception, domain, &empty, true)
    }

    /// Whether `domain` holds a broad rule of this kind.
    pub fn domain_has_broad_rule(&self, exception: bool, domain: &str) -> (res: bool)
        requires
            self.wf(),
        ensures
            res == has_broad(self@, exception, domain@),
    {
        let d = chars_of(domain);
        assert(d@.skip(0) =~= d@);
        self.broad_at(exception, &d, 0)
    }

    /// Whether `domain` holds a broad rule of this kind or a rule of this kind with these
    /// options.
    pub fn domain_covers_with_suffix(&self, exception: bool, domain: &str, suffix: &str) -> (res: bool)
        requires
            self.wf(),
        ensures
            res == covers_with_suffix(self@, exception, domain@, suffix@),
    {
        let d = chars_of(domain);
        let s = chars_of(suffix);
        assert(d@.skip(0) =~= d@);
        self.covers_at(exception, &d, 0, &s)
    }

    /// Whether `domain` or one of its parent domains holds a broad rule of this kind.
    pub fn has_broad_covering_domain(&self, exception: bool, domain: &str) -> (res: bool)
        requires
            self.wf(),
        ensures
            res == spec_has_broad_covering_domain(self@, exception, domain@),
    {
        self.broad_covering_chars(exception, domain)
    }

    /// Whether `domain` (when `include_self`) or one of its parent domains covers it with
    /// these options.
    pub fn has_covering_domain(
        &self,
        exception: bool,
        domain: &str,
        suffix: &str,
        include_self: bool,
    ) -> (res: bool)
        requires
            self.wf(),
        ensures
            res == spec_has_covering_domain(self@, exception, domain@, suffix@, include_self),
    {
        let d = chars_of(domain);
        let s = chars_of(suffix);
        assert(d@.skip(0) =~= d@);
        if include_self && self.covers_at(exception, &d, 0, &s) {
            return true;
        }
        self.parent_covers_chars(exception, domain, &s)
    }

    /// Whether a parent domain of the rule's domain covers it with the rule's options.
    pub fn has_covering_parent(&self, rule: &DomainRule) -> (res: bool)
        requires
            self.wf(),
        ensures
            res == parent_covers(self@, rule.exception, rule.domain@, rule.suffix@),
    {
        let s = chars_of(rule.suffix.as_str());
        self.parent_covers_chars(rule.exception, rule.domain.as_str(), &s)
    }

    /// Whether this (allow) coverage covers a block rule.
    pub fn covers_block_rule(&self, rule: &str) -> (res: bool)
        requires
            self.wf(),
        ensures
            res == spec_covers_block_rule(self@, rule@),
    {
        if let Some(domain_rule) = adblock_domain_rule(rule) {
            let d = chars_of(domain_rule.domain.as_str());
            if self.has_rule_at(true, &d) {
                return true;
            }
            if domain_rule.exception {
                return false;
            }
            let s = chars_of(domain_rule.suffix.as_str());
            return self.parent_covers_chars(true, domain_rule.domain.as_str(), &s);
        }
        match host_domain_key(rule) {
            Some(domain) => {
                let d = chars_of(domain.as_str());
                self.has_rule_at(true, &d) || self.has_broad_covering_domain(true, domain.as_str())
            },
            None => false,
        }
    }
}

/// Recording one more rule into the coverage of a sequence of rules.
proof fn lemma_coverage_of_push(rules: Seq<Seq<char>>, rule: Seq<char>)
    ensures
        coverage_of(rules.push(rule)) == match spec_adblock_rule(rule) {
            Some(r) => spec_insert(coverage_of(rules), r),
            None => coverage_of(rules),
        },
{
    let next = rules.push(rule);
    let n = rules.len() as int;
    let target = match spec_adblock_rule(rule) {
        Some(r) => spec_insert(coverage_of(rules), r),
        None => coverage_of(rules),
    };
    assert forall|p: (bool, Seq<char>)| coverage_of(next).0.contains(p) == target.0.contains(p) by {
        if coverage_of(next).0.contains(p) {
            let i = choose|i: int|
                0 <= i < next.len() && #[trigger] is_broad_rule_for(spec_adblock_rule(next[i]), p);
            if i < n {
                assert(is_broad_rule_for(spec_adblock_rule(rules[i]), p));
            }
        }
        if coverage_of(rules).0.contains(p) {
            let i = choose|i: int|
                0 <= i < rules.len() && #[trigger] is_broad_rule_for(spec_adblock_rule(rules[i]), p);
            assert(is_broad_rule_for(spec_adblock_rule(next[i]), p));
        }
        if let Some(r) = spec_adblock_rule(rule) {
            if is_broad_suffix(r.2) && p == (r.0, r.1) {
                assert(is_broad_rule_for(spec_adblock_rule(next[n]), p));
            }
        }
    }
    assert forall|r: (bool, Seq<char>, Seq<char>)| coverage_of(next).1.contains(r) == target.1.contains(r) by {
        if coverage_of(next).1.contains(r) {
            let i = choose|i: int| 0 <= i < next.len() && #[trigger] spec_adblock_rule(next[i]) == Some(r);
            if i < n {
                assert(spec_adblock_rule(rules[i]) == Some(r));
            }
        }
        if coverage_of(rules).1.contains(r) {
            let i = choose|i: int| 0 <= i < rules.len() && #[trigger] spec_adblock_rule(rules[i]) == Some(r);
            assert(spec_adblock_rule(next[i]) == Some(r));
        }
        if spec_adblock_rule(rule) == Some(r) {
            assert(spec_adblock_rule(next[n]) == Some(r));
        }
    }
    assert(coverage_of(next).0 =~= target.0);
    assert(coverage_of(next).1 =~= target.1);
}


/// The length of the longest prefix of `s` without a dot.
pub open spec fn dot_free_len(s: Seq<char>) -> nat
    decreases s.len(),
{
    if s.len() == 0 || s[0] == '.' {
        0
    } else {
        1 + dot_free_len(s.drop_first())
    }
}

proof fn lemma_dot_free_len_bound(s: Seq<char>)
    ensures
        dot_free_len(s) <= s.len(),
        dot_free_len(s) < s.len() ==> s[dot_free_len(s) as int] == '.',
        forall|j: int| 0 <= j < dot_free_len(s) ==> #[trigger] s[j] != '.',
    decreases s.len(),
{
    if s.len() > 0 && s[0] != '.' {
        lemma_dot_free_len_bound(s.drop_first());
        assert forall|j: int| 0 <= j < dot_free_len(s) implies #[trigger] s[j] != '.' by {
            if j > 0 {
                assert(s[j] == s.drop_first()[j - 1]);
            }
        }
    }
}

proof fn lemma_dot_free_len(s: Seq<char>, k: int)
    requires
        0 <= k <= s.len(),
        forall|j: int| 0 <= j < k ==> #[trigger] s[j] != '.',
        k == s.len() || s[k] == '.',
    ensures
        dot_free_len(s) == k,
    decreases k,
{
    if k > 0 {
        lemma_dot_free_len(s.drop_first(), k - 1);
    }
}

/// The parent domains of a domain, nearest first: `a.b.c` gives `b.c`, then `c`.
pub struct ParentDomains {
    rest: Vec<char>,
}

impl View for ParentDomains {
    type V = Seq<char>;

    /// The domain whose parents are still to come.
    closed spec fn view(&self) -> Seq<char> {
        self.rest@
    }
}

/// The parent domains of `domain`.
pub fn parent_domains(domain: &str) -> (res: ParentDomains)
    ensures
        res@ == domain@,
{
    ParentDomains { rest: chars_of(domain) }
}

impl ParentDomains {
    /// The next parent: what follows the first dot of the remaining domain, which then
    /// becomes the remaining domain; `None` when the remaining domain has no dot.
    pub fn next(&mut self) -> (res: Option<String>)
        ensures
            dot_free_len(old(self)@) < old(self)@.len() ==> {
                &&& final(self)@ == old(self)@.skip(dot_free_len(old(self)@) as int + 1)
                &&& res matches Some(p) && p@ == final(self)@
            },
            dot_free_len(old(self)@) >= old(self)@.len() ==> final(self)@ == old(self)@ && res is None,
    {
        let n = self.rest.len();
        let mut i: usize = 0;
        while i < n && self.rest[i] != '.'
            invariant
                i <= n == self.rest@.len(),
                forall|j: int| 0 <= j < i ==> #[trigger] self.rest@[j] != '.',
            decreases n - i,
        {
            i = i + 1;
        }
        proof {
            lemma_dot_free_len(self.rest@, i as int);
        }
        if i == n {
            return None;
        }
        let mut next_rest: Vec<char> = Vec::new();
        let mut j: usize = i + 1;
        while j < n
            invariant
                i < j <= n == self.rest@.len(),
                next_rest@ == self.rest@.subrange(i + 1, j as int),
            decreases n - j,
        {
            next_rest.push(self.rest[j]);
            j = j + 1;
        }
        let parent = string_of(&next_rest);
        self.rest = next_rest;
        Some(parent)
    }
}

} // verus!
