//! The grammar of a rule line: which lines are kept, adblock domain rules
//! (`[@@]||domain[^options]`) and hosts-file entries (`[address ]domain`).
use vstd::prelude::*;

use crate::text::{
    all_ws, ascii_lower, chars_of, is_whitespace, is_ws, lemma_trim_idempotent, lemma_trim_padded, string_of,
    to_ascii_lower, trim, trim_chars,
};

verus! {

// ---------------------------------------------------------------------------
// Prefix tests
// ---------------------------------------------------------------------------

/// `p` is a prefix of `s`.
pub open spec fn has_prefix(s: Seq<char>, p: Seq<char>) -> bool {
    p.len() <= s.len() && s.take(p.len() as int) == p
}

/// Tests `has_prefix`.
pub fn starts_with(s: &Vec<char>, p: &str) -> (res: bool)
    ensures
        res == has_prefix(s@, p@),
{
    let pc = chars_of(p);
    let m = pc.len();
    if m > s.len() {
        return false;
    }
    let mut i: usize = 0;
    while i < m
        invariant
            i <= m <= s@.len(),
            m == pc@.len(),
            pc@ == p@,
            forall|j: int| 0 <= j < i ==> s@[j] == pc@[j],
        decreases m - i,
    {
        if s[i] != pc[i] {
            assert(s@.take(m as int)[i as int] != p@[i as int]);
            return false;
        }
        i = i + 1;
    }
    assert(s@.take(m as int) =~= p@);
    true
}

// ---------------------------------------------------------------------------
// Which lines are rules
// ---------------------------------------------------------------------------

/// A line is a rule unless, once trimmed, it is empty, a comment (`!`, `#`), a section
/// header (`[`), or a `$removeparam` / `/regex/` rule that is not a domain rule.
pub open spec fn spec_valid(line: Seq<char>) -> bool {
    let s = trim(line);
    &&& !(s.len() == 0 || s[0] == '!' || s[0] == '#' || s[0] == '[')
    &&& !((has_prefix(s, "$removeparam"@) || s[0] == '/') && !has_prefix(s, "@@||"@)
        && !has_prefix(s, "||"@))
}

/// Whether a line of a rule source is kept as a rule.
pub fn valid(line: &str) -> (res: bool)
    ensures
        res == spec_valid(line@),
{
    let s = trim_chars(&chars_of(line));
    if s.len() == 0 || s[0] == '!' || s[0] == '#' || s[0] == '[' {
        return false;
    }
    if (starts_with(&s, "$removeparam") || s[0] == '/') && !starts_with(&s, "@@||")
        && !starts_with(&s, "||") {
        return false;
    }
    true
}


/// Surrounding whitespace never changes whether a line is a rule: a line is a rule exactly
/// when its trimmed form is, and padding it with whitespace on either side changes nothing.
pub proof fn lemma_valid_ignores_surrounding_whitespace(line: Seq<char>, before: Seq<char>, after: Seq<char>)
    requires
        all_ws(before),
        all_ws(after),
    ensures
        spec_valid(trim(line)) == spec_valid(line),
        spec_valid(before + line + after) == spec_valid(line),
{
    lemma_trim_idempotent(line);
    lemma_trim_padded(before, line, after);
}

/// Which lines are rules, by their first character once trimmed: an empty line, a comment
/// (`!` or `#`), a section header (`[`) and a path rule (`/`) are not rules, nor is a
/// `$removeparam` rule; a line beginning with `||` or `@@||`, or with any character other
/// than `! # [ / $`, is a rule.
pub proof fn lemma_rule_lines_by_first_char(line: Seq<char>)
    ensures
        trim(line).len() == 0 ==> !spec_valid(line),
        trim(line).len() > 0 && (trim(line)[0] == '!' || trim(line)[0] == '#' || trim(line)[0] == '['
            || trim(line)[0] == '/') ==> !spec_valid(line),
        trim(line).len() >= 12 && trim(line).take(12) == "$removeparam"@ ==> !spec_valid(line),
        trim(line).len() >= 2 && trim(line)[0] == '|' && trim(line)[1] == '|' ==> spec_valid(line),
        trim(line).len() >= 4 && trim(line)[0] == '@' && trim(line)[1] == '@' && trim(line)[2] == '|'
            && trim(line)[3] == '|' ==> spec_valid(line),
        trim(line).len() > 0 && trim(line)[0] != '!' && trim(line)[0] != '#' && trim(line)[0] != '['
            && trim(line)[0] != '/' && trim(line)[0] != '$' ==> spec_valid(line),
        trim(line).len() > 0 && trim(line)[0] == '$' && !(trim(line).len() >= 12 && trim(line).take(12)
            == "$removeparam"@) ==> spec_valid(line),
{
    reveal_strlit("$removeparam");
    reveal_strlit("@@||");
    reveal_strlit("||");
    let t = trim(line);
    if t.len() >= 2 && t[0] == '|' && t[1] == '|' {
        assert(t.take(2) =~= "||"@);
    }
    if t.len() >= 4 && t[0] == '@' && t[1] == '@' && t[2] == '|' && t[3] == '|' {
        assert(t.take(4) =~= "@@||"@);
    }
    if t.len() > 0 && t[0] != '@' && t[0] != '|' {
        if has_prefix(t, "@@||"@) {
            assert(t.take(4)[0] == t[0]);
        }
        if has_prefix(t, "||"@) {
            assert(t.take(2)[0] == t[0]);
        }
    }
    if t.len() > 0 && t[0] == '$' && has_prefix(t, "$removeparam"@) {
        assert(t.len() >= 12 && t.take(12) == "$removeparam"@);
    }
    if t.len() > 0 && t[0] != '$' {
        if has_prefix(t, "$removeparam"@) {
            assert(t.take(12)[0] == t[0]);
        }
    }
}

// ---------------------------------------------------------------------------
// Domain normalisation
// ---------------------------------------------------------------------------

/// `d` without its trailing dots (`str::trim_end_matches('.')`).
pub open spec fn strip_trailing_dots(d: Seq<char>) -> Seq<char>
    decreases d.len(),
{
    if d.len() > 0 && d.last() == '.' {
        strip_trailing_dots(d.drop_last())
    } else {
        d
    }
}

/// A domain as rules are compared: trailing dots removed, ASCII letters in lower case.
pub open spec fn normalize(d: Seq<char>) -> Seq<char> {
    strip_trailing_dots(d).map_values(|c: char| ascii_lower(c))
}

proof fn lemma_strip_trailing_dots_take(d: Seq<char>, k: int)
    requires
        0 <= k <= d.len(),
        forall|j: int| k <= j < d.len() ==> #[trigger] d[j] == '.',
        k == 0 || d[k - 1] != '.',
    ensures
        strip_trailing_dots(d) == d.take(k),
    decreases d.len() - k,
{
    if k < d.len() {
        assert(d.drop_last().take(k) =~= d.take(k));
        lemma_strip_trailing_dots_take(d.drop_last(), k);
    } else {
        assert(d.take(k) =~= d);
    }
}

/// The normalised form of the characters `s[from..to]`.
pub fn normalize_chars(s: &Vec<char>, from: usize, to: usize) -> (res: Vec<char>)
    requires
        from <= to <= s@.len(),
    ensures
        res@ == normalize(s@.subrange(from as int, to as int)),
{
    let ghost d = s@.subrange(from as int, to as int);
    let mut k: usize = to;
    while k > from && s[k - 1] == '.'
        invariant
            from <= k <= to <= s@.len(),
            d == s@.subrange(from as int, to as int),
            forall|j: int| k - from <= j < d.len() ==> #[trigger] d[j] == '.',
        decreases k,
    {
        k = k - 1;
    }
    proof {
        lemma_strip_trailing_dots_take(d, k - from);
    }
    let mut out: Vec<char> = Vec::new();
    let mut i: usize = from;
    while i < k
        invariant
            from <= i <= k <= to <= s@.len(),
            d == s@.subrange(from as int, to as int),
            out@ == d.take(i - from).map_values(|c: char| ascii_lower(c)),
        decreases k - i,
    {
        out.push(to_ascii_lower(s[i]));
        i = i + 1;
        assert(d.take(i - from) =~= d.take(i - 1 - from).push(d[i - 1 - from]));
    }
    out
}

/// The normalised form of a domain, as rules are compared.
pub fn normalize_domain(domain: &str) -> (res: String)
    ensures
        res@ == normalize(domain@),
{
    let c = chars_of(domain);
    let n = c.len();
    let v = normalize_chars(&c, 0, n);
    assert(c@.subrange(0, n as int) =~= c@);
    string_of(&v)
}

/// What `strip_trailing_dots` leaves is a prefix of `d`, empty or not ending with a dot.
proof fn lemma_strip_trailing_dots_prefix(d: Seq<char>)
    ensures
        strip_trailing_dots(d).len() <= d.len(),
        forall|j: int| 0 <= j < strip_trailing_dots(d).len() ==> #[trigger] strip_trailing_dots(d)[j] == d[j],
        forall|j: int| strip_trailing_dots(d).len() <= j < d.len() ==> #[trigger] d[j] == '.',
        strip_trailing_dots(d).len() == 0 || strip_trailing_dots(d).last() != '.',
    decreases d.len(),
{
    if d.len() > 0 && d.last() == '.' {
        lemma_strip_trailing_dots_prefix(d.drop_last());
        assert forall|j: int| strip_trailing_dots(d).len() <= j < d.len() implies #[trigger] d[j] == '.' by {
            if j < d.len() - 1 {
                assert(d.drop_last()[j] == d[j]);
            }
        }
    }
}

/// Lower-casing gives no ASCII upper-case letter, leaves a lower-cased character as it
/// is, and gives a dot only for a dot.
proof fn lemma_ascii_lower(c: char)
    ensures
        !('A' <= ascii_lower(c) && ascii_lower(c) <= 'Z'),
        ascii_lower(ascii_lower(c)) == ascii_lower(c),
        (ascii_lower(c) == '.') == (c == '.'),
{
    if 'A' <= c && c <= 'Z' {
        assert(97 <= (c as u32) + 32 <= 122);
        assert((((c as u32) + 32) as char) as u32 == (c as u32) + 32);
    }
}

/// Normalising keeps a domain up to its trailing dots, which it drops, and changes each
/// ASCII upper-case letter kept to its lower-case letter (32 code points on), every other
/// character staying as it is.
pub proof fn lemma_normalize_by_chars(d: Seq<char>)
    ensures
        normalize(d).len() <= d.len(),
        normalize(d).len() == 0 || d[normalize(d).len() - 1] != '.',
        forall|j: int| normalize(d).len() <= j < d.len() ==> #[trigger] d[j] == '.',
        forall|j: int| 0 <= j < normalize(d).len() ==> #[trigger] normalize(d)[j] == if 'A' <= d[j] && d[j] <= 'Z' {
            ((d[j] as u32) + 32) as char
        } else {
            d[j]
        },
{
    lemma_strip_trailing_dots_prefix(d);
    let t = strip_trailing_dots(d);
    if t.len() > 0 {
        assert(t[t.len() - 1] == d[t.len() - 1]);
    }
}

/// Normalising a domain twice is normalising it once; a normalised domain has no trailing
/// dot and no ASCII upper-case letter.
pub proof fn lemma_normalize_idempotent(d: Seq<char>)
    ensures
        normalize(normalize(d)) == normalize(d),
        normalize(d).len() == 0 || normalize(d).last() != '.',
        forall|i: int| 0 <= i < normalize(d).len() ==> !('A' <= #[trigger] normalize(d)[i] && normalize(d)[i] <= 'Z'),
{
    let t = strip_trailing_dots(d);
    let n = normalize(d);
    lemma_strip_trailing_dots_prefix(d);
    assert forall|i: int| 0 <= i < n.len() implies !('A' <= #[trigger] n[i] && n[i] <= 'Z') by {
        lemma_ascii_lower(t[i]);
    }
    if n.len() > 0 {
        lemma_ascii_lower(t.last());
        assert(n.last() == ascii_lower(t.last()));
    }
    assert(strip_trailing_dots(n) == n);
    let m = n.map_values(|c: char| ascii_lower(c));
    assert forall|i: int| 0 <= i < n.len() implies #[trigger] m[i] == n[i] by {
        lemma_ascii_lower(t[i]);
    }
    assert(m =~= n);
}

// ---------------------------------------------------------------------------
// Adblock domain rules: `^(@@)?\|\|([^\^/$|]+)(\^.*)?$`
// ---------------------------------------------------------------------------

/// The characters that end the domain of an adblock rule.
pub open spec fn is_domain_stop(c: char) -> bool {
    c == '^' || c == '/' || c == '$' || c == '|'
}

/// The three captures of the adblock pattern: the text is `[@@]||` (`@@` exactly when
/// `exception`), then a nonempty domain free of `^ / $ |`, then either nothing or `^`
/// followed by characters other than a line feed.
pub open spec fn adblock_form(t: Seq<char>, exception: bool, d: Seq<char>, r: Seq<char>) -> bool {
    &&& t == (if exception { "@@"@ } else { Seq::<char>::empty() }) + "||"@ + d + r
    &&& d.len() > 0
    &&& forall|i: int| 0 <= i < d.len() ==> !is_domain_stop(#[trigger] d[i])
    &&& options_ok(r)
}

/// The length of the longest prefix of `s` free of domain stops.
pub open spec fn stop_free_len(s: Seq<char>) -> nat
    decreases s.len(),
{
    if s.len() == 0 || is_domain_stop(s[0]) {
        0
    } else {
        1 + stop_free_len(s.drop_first())
    }
}

/// No line feed in `r`.
pub open spec fn no_line_feed(r: Seq<char>) -> bool {
    forall|i: int| 0 <= i < r.len() ==> #[trigger] r[i] != '\n'
}

/// The options capture: nothing, or `^` followed by characters other than a line feed.
pub open spec fn options_ok(r: Seq<char>) -> bool {
    r.len() == 0 || (r[0] == '^' && no_line_feed(r))
}

/// The opener of an adblock rule: `@@||` (an exception) or `||`, with its length.
pub open spec fn adblock_opener(t: Seq<char>) -> Option<(bool, int)> {
    if has_prefix(t, "@@||"@) {
        Some((true, 4int))
    } else if has_prefix(t, "||"@) {
        Some((false, 2int))
    } else {
        None
    }
}

/// The domain and options captures of what follows the opener.
pub open spec fn adblock_tail(e: bool, body: Seq<char>) -> Option<(bool, Seq<char>, Seq<char>)> {
    let k = stop_free_len(body) as int;
    if k > 0 && options_ok(body.skip(k)) {
        Some((e, body.take(k), body.skip(k)))
    } else {
        None
    }
}

/// The captures of the adblock pattern on a (trimmed) rule, if it matches.
pub open spec fn adblock_parts(t: Seq<char>) -> Option<(bool, Seq<char>, Seq<char>)> {
    match adblock_opener(t) {
        None => None,
        Some((e, start)) => adblock_tail(e, t.skip(start)),
    }
}

/// The options part of a rule as kept: the captured `^...`, or `^` when there is none.
pub open spec fn suffix_or_caret(r: Seq<char>) -> Seq<char> {
    if r.len() == 0 {
        "^"@
    } else {
        r
    }
}

/// What an adblock domain rule stands for: exception or not, normalised domain, options.
pub open spec fn spec_adblock_rule(rule: Seq<char>) -> Option<(bool, Seq<char>, Seq<char>)> {
    match adblock_parts(trim(rule)) {
        Some((e, d, r)) => Some((e, normalize(d), suffix_or_caret(r))),
        None => None,
    }
}

/// `t` is `[@@]||domain[options]` (`@@` exactly when `exception`), with a nonempty domain
/// free of `^ / $ |` and options that are empty or `^` followed by characters other than a
/// line feed.
pub open spec fn reads_as_adblock(t: Seq<char>, exception: bool, domain: Seq<char>, options: Seq<char>) -> bool {
    &&& t == (if exception { seq!['@', '@', '|', '|'] } else { seq!['|', '|'] }) + domain + options
    &&& domain.len() > 0
    &&& forall|i: int| 0 <= i < domain.len() ==> {
        let c = #[trigger] domain[i];
        c != '^' && c != '/' && c != '$' && c != '|'
    }
    &&& options.len() == 0 || (options[0] == '^' && forall|i: int|
        0 <= i < options.len() ==> #[trigger] options[i] != '\n')
}

/// How an adblock domain rule is read, for exception rules and blocking rules alike: a
/// trimmed rule `[@@]||domain[options]`, with a nonempty domain free of `^ / $ |` and
/// options that are empty or `^` followed by characters other than a line feed, gives the
/// exception flag, the normalised domain, and the options, or `^` when there are none.
pub proof fn lemma_adblock_rule_reading(
    rule: Seq<char>,
    exception: bool,
    domain: Seq<char>,
    options: Seq<char>,
)
    requires
        reads_as_adblock(trim(rule), exception, domain, options),
    ensures
        spec_adblock_rule(rule) == Some((exception, normalize(domain), if options.len() == 0 { seq!['^'] } else { options })),
{
    reveal_strlit("@@");
    reveal_strlit("||");
    reveal_strlit("^");
    let t = trim(rule);
    assert(t =~= (if exception { "@@"@ } else { Seq::<char>::empty() }) + "||"@ + domain + options);
    lemma_adblock_parts_complete(t, exception, domain, options);
    if options.len() == 0 {
        assert("^"@ =~= seq!['^']);
    }
}

/// `nd` and `options_read` are what the trimmed rule `t` reads as: `t` has the shape
/// `[@@]||domain[options]` of `reads_as_adblock`, `nd` is the normalised domain, and
/// `options_read` the options, or `^` when there are none.
pub open spec fn read_from(t: Seq<char>, e: bool, nd: Seq<char>, options_read: Seq<char>) -> bool {
    exists|domain: Seq<char>, options: Seq<char>|
        #[trigger] reads_as_adblock(t, e, domain, options) && nd == normalize(domain) && options_read == (
        if options.len() == 0 {
            seq!['^']
        } else {
            options
        })
}

/// Only such rules are read as adblock domain rules: whatever is read comes from a trimmed
/// rule `[@@]||domain[options]` of that shape, as its exception flag, its normalised domain
/// and its options, or `^` when there are none.
pub proof fn lemma_adblock_rule_reading_sound(rule: Seq<char>)
    ensures
        match spec_adblock_rule(rule) {
            Some((e, nd, s)) => read_from(trim(rule), e, nd, s),
            None => true,
        },
{
    reveal_strlit("@@");
    reveal_strlit("||");
    reveal_strlit("^");
    let t = trim(rule);
    lemma_adblock_parts_sound(t);
    if let Some((e, d, r)) = adblock_parts(t) {
        assert(t =~= (if e { seq!['@', '@', '|', '|'] } else { seq!['|', '|'] }) + d + r);
        assert("^"@ =~= seq!['^']);
        assert(reads_as_adblock(t, e, d, r));
        let o = if r.len() == 0 { seq!['^'] } else { r };
        assert(spec_adblock_rule(rule) == Some((e, normalize(d), o)));
        assert(read_from(t, e, normalize(d), o));
    }
}

/// The options of every adblock domain rule begin with `^`: a rule without options reads
/// as `^`, never as empty options.
pub proof fn lemma_adblock_options_begin_with_caret(rule: Seq<char>)
    ensures
        spec_adblock_rule(rule) matches Some((_, _, s)) ==> s.len() > 0 && s[0] == '^',
{
    reveal_strlit("^");
    lemma_adblock_parts_sound(trim(rule));
}

proof fn lemma_stop_free_len(s: Seq<char>, k: int)
    requires
        0 <= k <= s.len(),
        forall|j: int| 0 <= j < k ==> !is_domain_stop(#[trigger] s[j]),
        k == s.len() || is_domain_stop(s[k]),
    ensures
        stop_free_len(s) == k,
    decreases k,
{
    if k > 0 {
        lemma_stop_free_len(s.drop_first(), k - 1);
    }
}

/// The captures that `adblock_parts` returns satisfy the adblock pattern.
pub proof fn lemma_adblock_parts_sound(t: Seq<char>)
    ensures
        adblock_parts(t) matches Some((e, d, r)) ==> adblock_form(t, e, d, r),
{
    reveal_strlit("@@||");
    reveal_strlit("||");
    reveal_strlit("@@");
    if let Some((e, d, r)) = adblock_parts(t) {
        let start: int = if e { 4 } else { 2 };
        let body = t.skip(start);
        let k = stop_free_len(body) as int;
        lemma_stop_free_len_bound(body);
        assert(d == body.take(k));
        assert(r == body.skip(k));
        assert(d.len() > 0);
        assert(options_ok(r));
        assert forall|i: int| 0 <= i < d.len() implies !is_domain_stop(#[trigger] d[i]) by {
            lemma_stop_free_prefix(body, i);
        }
        assert(t.take(start) =~= (if e { "@@"@ } else { Seq::<char>::empty() }) + "||"@);
        assert(body =~= d + r);
        assert(t =~= t.take(start) + body);
        assert(t =~= (if e { "@@"@ } else { Seq::<char>::empty() }) + "||"@ + d + r);
    }
}

proof fn lemma_stop_free_len_bound(s: Seq<char>)
    ensures
        stop_free_len(s) <= s.len(),
        stop_free_len(s) < s.len() ==> is_domain_stop(s[stop_free_len(s) as int]),
    decreases s.len(),
{
    if s.len() > 0 && !is_domain_stop(s[0]) {
        lemma_stop_free_len_bound(s.drop_first());
    }
}

proof fn lemma_stop_free_prefix(s: Seq<char>, i: int)
    requires
        0 <= i < stop_free_len(s),
    ensures
        !is_domain_stop(s[i]),
    decreases i,
{
    lemma_stop_free_len_bound(s);
    if i > 0 {
        lemma_stop_free_prefix(s.drop_first(), i - 1);
    }
}

/// Any decomposition of a rule by the adblock pattern is the one `adblock_parts` returns:
/// the pattern's captures are unique.
pub proof fn lemma_adblock_parts_complete(t: Seq<char>, e: bool, d: Seq<char>, r: Seq<char>)
    requires
        adblock_form(t, e, d, r),
    ensures
        adblock_parts(t) == Some((e, d, r)),
{
    reveal_strlit("@@||");
    reveal_strlit("||");
    reveal_strlit("@@");
    let start: int = if e { 4 } else { 2 };
    let body = t.skip(start);
    assert(body =~= d + r);
    if !e {
        assert(t[0] == '|');
        if has_prefix(t, "@@||"@) {
            assert(t.take(4)[0] == t[0]);
        }
    } else {
        assert(t.take(4) =~= "@@||"@);
    }
    assert(t.take(2) =~= "||"@ || e);
    assert forall|j: int| 0 <= j < d.len() implies !is_domain_stop(#[trigger] body[j]) by {
        assert(body[j] == d[j]);
    }
    if r.len() > 0 {
        assert(body[d.len() as int] == r[0]);
    }
    lemma_stop_free_len(body, d.len() as int);
    assert(body.take(d.len() as int) =~= d);
    assert(body.skip(d.len() as int) =~= r);
}

/// A parsed adblock domain rule.
#[derive(Clone, Debug, PartialEq, Eq)]
pub struct DomainRule {
    pub exception: bool,
    pub domain: String,
    pub suffix: String,
}

impl View for DomainRule {
    type V = (bool, Seq<char>, Seq<char>);

    open spec fn view(&self) -> (bool, Seq<char>, Seq<char>) {
        (self.exception, self.domain@, self.suffix@)
    }
}

/// The view of an optional parsed rule.
pub open spec fn opt_rule_view(o: Option<DomainRule>) -> Option<(bool, Seq<char>, Seq<char>)> {
    match o {
        Some(r) => Some(r@),
        None => None,
    }
}

/// The adblock domain rule that `rule` (trimmed) is, if it is one: whether it is an
/// exception (`@@`), its normalised domain, and its options (`^` when it has none).
pub fn adblock_domain_rule(rule: &str) -> (res: Option<DomainRule>)
    ensures
        opt_rule_view(res) == spec_adblock_rule(rule@),
{
    let t = trim_chars(&chars_of(rule));
    let n = t.len();
    let ghost tv = t@;
    let (exception, start): (bool, usize) = if starts_with(&t, "@@||") {
        (true, 4)
    } else if starts_with(&t, "||") {
        (false, 2)
    } else {
        return None;
    };
    proof {
        reveal_strlit("@@||");
        reveal_strlit("||");
    }
    assert(adblock_opener(tv) == Some((exception, start as int)));
    let ghost body = tv.skip(start as int);
    let mut k: usize = start;
    while k < n && !(t[k] == '^' || t[k] == '/' || t[k] == '$' || t[k] == '|')
        invariant
            start <= k <= n,
            n == tv.len(),
            t@ == tv,
            body == tv.skip(start as int),
            adblock_opener(tv) == Some((exception, start as int)),
            forall|j: int| 0 <= j < k - start ==> !is_domain_stop(#[trigger] body[j]),
        decreases n - k,
    {
        assert(body[(k - start) as int] == tv[k as int]);
        k = k + 1;
    }
    proof {
        if k < n {
            assert(body[(k - start) as int] == tv[k as int]);
        }
        lemma_stop_free_len(body, k - start);
    }
    if k == start {
        return None;
    }
    let mut suffix_chars: Vec<char> = Vec::new();
    if k < n {
        if t[k] != '^' {
            return None;
        }
        let mut i: usize = k;
        while i < n
            invariant
                k <= i <= n,
                n == tv.len(),
                t@ == tv,
                suffix_chars@ == tv.subrange(k as int, i as int),
                start <= k,
                body == tv.skip(start as int),
                adblock_opener(tv) == Some((exception, start as int)),
                stop_free_len(body) == k - start,
                tv == trim(rule@),
                forall|j: int| 0 <= j < i - k ==> #[trigger] suffix_chars@[j] != '\n',
            decreases n - i,
        {
            if t[i] == '\n' {
                proof {
                    let r = body.skip(k - start);
                    assert(r[i - k] == tv[i as int]);
                    assert(!no_line_feed(r));
                    assert(adblock_opener(tv) == Some((exception, start as int)));
                    assert(adblock_tail(exception, body) is None);
                }
                return None;
            }
            suffix_chars.push(t[i]);
            i = i + 1;
        }
        proof {
            assert(body.skip(k - start) =~= suffix_chars@);
        }
    } else {
        suffix_chars.push('^');
        proof {
            reveal_strlit("^");
            assert(suffix_chars@ =~= "^"@);
        }
    }
    let domain_chars = normalize_chars(&t, start, k);
    proof {
        assert(body.take(k - start) =~= tv.subrange(start as int, k as int));
    }
    Some(DomainRule { exception, domain: string_of(&domain_chars), suffix: string_of(&suffix_chars) })
}


// ---------------------------------------------------------------------------
// Hosts-file entries: `^(?:[0-9.]+\s+)?([A-Za-z0-9*._-]+\.[A-Za-z0-9._-]+)$`
// ---------------------------------------------------------------------------

/// An ASCII letter or digit.
pub open spec fn is_ascii_alnum(c: char) -> bool {
    ('A' <= c && c <= 'Z') || ('a' <= c && c <= 'z') || ('0' <= c && c <= '9')
}

/// `[0-9.]`: a character of the address in front of a hosts entry.
pub open spec fn is_addr_char(c: char) -> bool {
    ('0' <= c && c <= '9') || c == '.'
}

/// `[A-Za-z0-9*._-]`: a character of the name before its last separating dot.
pub open spec fn is_head_char(c: char) -> bool {
    is_ascii_alnum(c) || c == '*' || c == '.' || c == '_' || c == '-'
}

/// `[A-Za-z0-9._-]`: a character of the name after its separating dot.
pub open spec fn is_tail_char(c: char) -> bool {
    is_ascii_alnum(c) || c == '.' || c == '_' || c == '-'
}

/// `b` splits at the dot `b[i]` into a nonempty head of `is_head_char`s and a nonempty
/// tail of `is_tail_char`s.
pub open spec fn name_split(b: Seq<char>, i: int) -> bool {
    &&& 1 <= i && i + 1 < b.len()
    &&& b[i] == '.'
    &&& forall|j: int| 0 <= j < i ==> is_head_char(#[trigger] b[j])
    &&& forall|j: int| i < j < b.len() ==> is_tail_char(#[trigger] b[j])
}

/// `[A-Za-z0-9*._-]+\.[A-Za-z0-9._-]+`: the host name of a hosts entry.
pub open spec fn host_name_form(b: Seq<char>) -> bool {
    exists|i: int| #[trigger] name_split(b, i)
}

/// Every character of `s` satisfies `f`.
pub open spec fn all_chars(s: Seq<char>, f: spec_fn(char) -> bool) -> bool {
    forall|j: int| 0 <= j < s.len() ==> f(#[trigger] s[j])
}

/// `g` is what the hosts pattern captures on `t`: either `t` is an address (`[0-9.]+`),
/// whitespace, then the name `g`; or `t` is the name `g` itself.
pub open spec fn host_form(t: Seq<char>, g: Seq<char>) -> bool {
    ||| exists|p: Seq<char>, w: Seq<char>|
        #![trigger p + w + g]
        t == p + w + g && p.len() > 0 && all_chars(p, |c: char| is_addr_char(c)) && w.len() > 0
            && all_chars(w, |c: char| is_ws(c)) && host_name_form(g)
    ||| g == t && host_name_form(t)
}

/// The length of the longest prefix of `s` without whitespace.
pub open spec fn ws_free_len(s: Seq<char>) -> nat
    decreases s.len(),
{
    if s.len() == 0 || is_ws(s[0]) {
        0
    } else {
        1 + ws_free_len(s.drop_first())
    }
}

/// The length of the longest prefix of `s` made of whitespace.
pub open spec fn ws_run_len(s: Seq<char>) -> nat
    decreases s.len(),
{
    if s.len() > 0 && is_ws(s[0]) {
        1 + ws_run_len(s.drop_first())
    } else {
        0
    }
}

/// What the hosts pattern captures on a (trimmed) rule, if it matches.
pub open spec fn host_capture(t: Seq<char>) -> Option<Seq<char>> {
    let i = ws_free_len(t) as int;
    if i == t.len() {
        if host_name_form(t) {
            Some(t)
        } else {
            None
        }
    } else {
        let rest = t.skip(i);
        let g = rest.skip(ws_run_len(rest) as int);
        if i > 0 && all_chars(t.take(i), |c: char| is_addr_char(c)) && host_name_form(g) {
            Some(g)
        } else {
            None
        }
    }
}

/// The normalised domain of a hosts entry, if `rule` (trimmed) is one.
pub open spec fn spec_host_domain(rule: Seq<char>) -> Option<Seq<char>> {
    match host_capture(trim(rule)) {
        Some(g) => Some(normalize(g)),
        None => None,
    }
}

proof fn lemma_ws_free_len(s: Seq<char>, k: int)
    requires
        0 <= k <= s.len(),
        forall|j: int| 0 <= j < k ==> !is_ws(#[trigger] s[j]),
        k == s.len() || is_ws(s[k]),
    ensures
        ws_free_len(s) == k,
    decreases k,
{
    if k > 0 {
        lemma_ws_free_len(s.drop_first(), k - 1);
    }
}

proof fn lemma_ws_free_len_bound(s: Seq<char>)
    ensures
        ws_free_len(s) <= s.len(),
        ws_free_len(s) < s.len() ==> is_ws(s[ws_free_len(s) as int]),
        forall|j: int| 0 <= j < ws_free_len(s) ==> !is_ws(#[trigger] s[j]),
    decreases s.len(),
{
    if s.len() > 0 && !is_ws(s[0]) {
        lemma_ws_free_len_bound(s.drop_first());
        assert forall|j: int| 0 <= j < ws_free_len(s) implies !is_ws(#[trigger] s[j]) by {
            if j > 0 {
                assert(s[j] == s.drop_first()[j - 1]);
            }
        }
    }
}

proof fn lemma_ws_run_len(s: Seq<char>, k: int)
    requires
        0 <= k <= s.len(),
        forall|j: int| 0 <= j < k ==> is_ws(#[trigger] s[j]),
        k == s.len() || !is_ws(s[k]),
    ensures
        ws_run_len(s) == k,
    decreases k,
{
    if k > 0 {
        lemma_ws_run_len(s.drop_first(), k - 1);
    }
}

proof fn lemma_ws_run_len_bound(s: Seq<char>)
    ensures
        ws_run_len(s) <= s.len(),
        ws_run_len(s) < s.len() ==> !is_ws(s[ws_run_len(s) as int]),
        forall|j: int| 0 <= j < ws_run_len(s) ==> is_ws(#[trigger] s[j]),
    decreases s.len(),
{
    if s.len() > 0 && is_ws(s[0]) {
        lemma_ws_run_len_bound(s.drop_first());
        assert forall|j: int| 0 <= j < ws_run_len(s) implies is_ws(#[trigger] s[j]) by {
            if j > 0 {
                assert(s[j] == s.drop_first()[j - 1]);
            }
        }
    }
}

/// A host name holds no whitespace.
proof fn lemma_host_name_no_ws(b: Seq<char>)
    requires
        host_name_form(b),
    ensures
        b.len() > 0,
        forall|j: int| 0 <= j < b.len() ==> !is_ws(#[trigger] b[j]),
{
    let i = choose|i: int| name_split(b, i);
    assert forall|j: int| 0 <= j < b.len() implies !is_ws(#[trigger] b[j]) by {
        if j < i {
            assert(is_head_char(b[j]));
        } else if j > i {
            assert(is_tail_char(b[j]));
        }
    }
}

/// The capture that `host_capture` returns is one the hosts pattern gives.
pub proof fn lemma_host_capture_sound(t: Seq<char>)
    ensures
        host_capture(t) matches Some(g) ==> host_form(t, g),
{
    let i = ws_free_len(t) as int;
    lemma_ws_free_len_bound(t);
    if i < t.len() {
        let rest = t.skip(i);
        let w = ws_run_len(rest) as int;
        lemma_ws_run_len_bound(rest);
        let g = rest.skip(w);
        if let Some(g2) = host_capture(t) {
            assert(g2 == g);
            let p = t.take(i);
            let ws = rest.take(w);
            assert(rest[0] == t[i]);
            assert(w > 0);
            assert(t =~= p + ws + g);
            assert(all_chars(ws, |c: char| is_ws(c))) by {
                assert forall|j: int| 0 <= j < ws.len() implies is_ws(#[trigger] ws[j]) by {
                    assert(ws[j] == rest[j]);
                }
            }
        }
    }
}

/// Any capture the hosts pattern gives is the one `host_capture` returns.
pub proof fn lemma_host_capture_complete(t: Seq<char>, g: Seq<char>)
    requires
        host_form(t, g),
    ensures
        host_capture(t) == Some(g),
{
    lemma_host_name_no_ws(g);
    if g == t && host_name_form(t) {
        lemma_ws_free_len(t, t.len() as int);
    } else {
        let (p, w) = choose|p: Seq<char>, w: Seq<char>|
            t == p + w + g && p.len() > 0 && all_chars(p, |c: char| is_addr_char(c)) && w.len()
                > 0 && all_chars(w, |c: char| is_ws(c)) && host_name_form(g);
        assert forall|j: int| 0 <= j < p.len() implies !is_ws(#[trigger] t[j]) by {
            assert(t[j] == p[j]);
            assert(is_addr_char(p[j]));
        }
        assert(t[p.len() as int] == w[0]);
        lemma_ws_free_len(t, p.len() as int);
        let rest = t.skip(p.len() as int);
        assert(rest =~= w + g);
        assert forall|j: int| 0 <= j < w.len() implies is_ws(#[trigger] rest[j]) by {
            assert(rest[j] == w[j]);
        }
        assert(rest[w.len() as int] == g[0]);
        lemma_ws_run_len(rest, w.len() as int);
        assert(rest.skip(w.len() as int) =~= g);
        assert(t.take(p.len() as int) =~= p);
    }
}

/// Tests `host_name_form` on `s[from..to]`.
#[verifier::loop_isolation(false)]
fn is_host_name(s: &Vec<char>, from: usize, to: usize) -> (res: bool)
    requires
        from <= to <= s@.len(),
    ensures
        res == host_name_form(s@.subrange(from as int, to as int)),
{
    let ghost b = s@.subrange(from as int, to as int);
    let len = to - from;
    // every character is a head character; `lo` is one past the last `*`, at least 1
    let mut lo: usize = 1;
    let mut j: usize = 0;
    while j < len
        invariant
            j <= len == b.len(),
            from + len <= s@.len(),
            b == s@.subrange(from as int, to as int),
            1 <= lo <= j + 1,
            lo <= j || lo == 1,
            lo == 1 || b[lo - 1] == '*',
            forall|q: int| 0 <= q < j ==> is_head_char(#[trigger] b[q]),
            forall|q: int| lo <= q < j ==> #[trigger] b[q] != '*',
        decreases len - j,
    {
        let c = s[from + j];
        assert(c == b[j as int]);
        let head = ('A' <= c && c <= 'Z') || ('a' <= c && c <= 'z') || ('0' <= c && c <= '9') || c
            == '*' || c == '.' || c == '_' || c == '-';
        if !head {
            proof {
                assert forall|i: int| !name_split(b, i) by {
                    if name_split(b, i) {
                        if j < i {
                            assert(is_head_char(b[j as int]));
                        } else if j > i {
                            assert(is_tail_char(b[j as int]));
                        }
                    }
                }
            }
            return false;
        }
        if c == '*' {
            lo = j + 1;
        }
        j = j + 1;
    }
    if len < 3 {
        proof {
            assert forall|i: int| !name_split(b, i) by {}
        }
        return false;
    }
    let mut i: usize = lo;
    while i < len - 1
        invariant
            lo <= i <= len,
            len == b.len(),
            from + len <= s@.len(),
            b == s@.subrange(from as int, to as int),
            forall|q: int| lo <= q < i ==> #[trigger] b[q] != '.',
        decreases len - i,
    {
        if s[from + i] == '.' {
            proof {
                assert(b[i as int] == '.');
                assert forall|q: int| i < q < b.len() implies is_tail_char(#[trigger] b[q]) by {
                    assert(is_head_char(b[q]));
                    assert(b[q] != '*');
                }
                assert(name_split(b, i as int));
            }
            return true;
        }
        i = i + 1;
    }
    proof {
        assert forall|q: int| !name_split(b, q) by {
            if name_split(b, q) {
                if q < lo {
                    if q == lo - 1 {
                        assert(b[q] == '*');
                    } else {
                        assert(is_tail_char(b[lo - 1]));
                    }
                } else {
                    assert(b[q] != '.');
                }
            }
        }
    }
    false
}

/// The normalised domain of a hosts entry (`0.0.0.0 example.com` or `example.com`), if
/// `rule` (trimmed) is one.
#[verifier::loop_isolation(false)]
pub fn host_domain_key(rule: &str) -> (res: Option<String>)
    ensures
        match res {
            Some(d) => spec_host_domain(rule@) == Some(d@),
            None => spec_host_domain(rule@) is None,
        },
{
    let t = trim_chars(&chars_of(rule));
    let n = t.len();
    let ghost tv = t@;
    let mut i: usize = 0;
    while i < n && !is_whitespace(t[i])
        invariant
            i <= n == tv.len(),
            t@ == tv,
            forall|q: int| 0 <= q < i ==> !is_ws(#[trigger] tv[q]),
        decreases n - i,
    {
        i = i + 1;
    }
    proof {
        lemma_ws_free_len(tv, i as int);
    }
    if i == n {
        assert(tv.subrange(0, n as int) =~= tv);
        if is_host_name(&t, 0, n) {
            let d = normalize_chars(&t, 0, n);
            return Some(string_of(&d));
        } else {
            return None;
        }
    }
    let mut q: usize = 0;
    while q < i
        invariant
            q <= i < n == tv.len(),
            t@ == tv,
            forall|r: int| 0 <= r < q ==> is_addr_char(#[trigger] tv[r]),
        decreases i - q,
    {
        if !(('0' <= t[q] && t[q] <= '9') || t[q] == '.') {
            proof {
                let p = tv.take(i as int);
                assert(p[q as int] == tv[q as int]);
                assert(!all_chars(p, |c: char| is_addr_char(c)));
            }
            return None;
        }
        q = q + 1;
    }
    let ghost rest = tv.skip(i as int);
    let mut j: usize = i;
    while j < n && is_whitespace(t[j])
        invariant
            i <= j <= n == tv.len(),
            t@ == tv,
            rest == tv.skip(i as int),
            forall|r: int| 0 <= r < j - i ==> is_ws(#[trigger] rest[r]),
        decreases n - j,
    {
        assert(rest[j - i] == tv[j as int]);
        j = j + 1;
    }
    proof {
        if j < n {
            assert(rest[j - i] == tv[j as int]);
        }
        lemma_ws_run_len(rest, j - i);
        assert(rest.skip(j - i) =~= tv.subrange(j as int, n as int));
        assert forall|r: int| 0 <= r < i implies is_addr_char(#[trigger] tv.take(i as int)[r]) by {
            assert(tv.take(i as int)[r] == tv[r]);
        }
        assert(all_chars(tv.take(i as int), |c: char| is_addr_char(c)));
    }
    if i > 0 && is_host_name(&t, j, n) {
        let d = normalize_chars(&t, j, n);
        Some(string_of(&d))
    } else {
        None
    }
}

/// The domain a rule names: that of an adblock domain rule, or else that of a hosts entry.
pub open spec fn spec_domain_key(rule: Seq<char>) -> Option<Seq<char>> {
    match spec_adblock_rule(rule) {
        Some((_, d, _)) => Some(d),
        None => spec_host_domain(rule),
    }
}

/// The domain a rule names: that of an adblock domain rule, or else that of a hosts entry.
pub fn domain_key(rule: &str) -> (res: Option<String>)
    ensures
        match res {
            Some(d) => spec_domain_key(rule@) == Some(d@),
            None => spec_domain_key(rule@) is None,
        },
{
    if let Some(domain_rule) = adblock_domain_rule(rule) {
        return Some(domain_rule.domain);
    }
    host_domain_key(rule)
}

} // verus!
