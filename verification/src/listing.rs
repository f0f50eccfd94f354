//! The text of a published list: a comment header, then the rules one per line.
use vstd::prelude::*;

use crate::coverage::views;
use crate::laws::lemma_filter_all;
use crate::pipeline::{is_rule_line, lemma_split_lf_nonempty, source_rules, split_lf};
use crate::rule::{lemma_valid_ignores_surrounding_whitespace, no_line_feed, spec_valid};
use crate::text::{chars_of, lemma_trim_keeps_first, string_of, trim};

verus! {

/// The rules joined by line feeds.
pub open spec fn join_lines(rules: Seq<Seq<char>>) -> Seq<char>
    decreases rules.len(),
{
    if rules.len() == 0 {
        Seq::<char>::empty()
    } else if rules.len() == 1 {
        rules[0]
    } else {
        join_lines(rules.drop_last()) + "\n"@ + rules.last()
    }
}

/// The text of a list: a comment line with its title, one with the date it was generated
/// and one with its sources, a blank line, then the rules one per line, ending with a line
/// feed.
pub open spec fn spec_list_text(title: Seq<char>, today: Seq<char>, sources: Seq<char>, rules: Seq<Seq<char>>) -> Seq<char> {
    "! "@ + title + "\n! Generated: "@ + today + "\n! Sources: "@ + sources + "\n\n"@ + join_lines(rules) + "\n"@
}

/// Splitting at a line feed between `a` and `b` gives the pieces of `a`, then those of `b`.
proof fn lemma_split_lf_join(a: Seq<char>, b: Seq<char>)
    ensures
        split_lf(a + "\n"@ + b) == split_lf(a) + split_lf(b),
    decreases b.len(),
{
    reveal_strlit("\n");
    let x = a + "\n"@ + b;
    if b.len() == 0 {
        assert(x.drop_last() =~= a);
        assert(x.last() == '\n');
        assert(split_lf(a).push(Seq::<char>::empty()) =~= split_lf(a) + split_lf(b));
    } else {
        assert(x.drop_last() =~= a + "\n"@ + b.drop_last());
        assert(x.last() == b.last());
        lemma_split_lf_join(a, b.drop_last());
        lemma_split_lf_nonempty(b.drop_last());
        let p = split_lf(a);
        let q = split_lf(b.drop_last());
        if b.last() == '\n' {
            assert((p + q).push(Seq::<char>::empty()) =~= p + q.push(Seq::<char>::empty()));
        } else {
            assert((p + q).update((p + q).len() - 1, (p + q).last().push(b.last())) =~= p + q.update(
                q.len() - 1,
                q.last().push(b.last()),
            ));
        }
    }
}

/// A piece without a line feed splits into itself.
proof fn lemma_split_lf_line(s: Seq<char>)
    requires
        no_line_feed(s),
    ensures
        split_lf(s) == seq![s],
    decreases s.len(),
{
    if s.len() > 0 {
        let t = s.drop_last();
        assert forall|i: int| 0 <= i < t.len() implies #[trigger] t[i] != '\n' by {
            assert(t[i] == s[i]);
        }
        lemma_split_lf_line(t);
        assert(s[s.len() - 1] != '\n');
        assert(t.push(s.last()) =~= s);
        assert(seq![t].last() == t);
        assert(seq![t].update(0, s) =~= seq![s]);
    } else {
        assert(s =~= Seq::<char>::empty());
    }
}

/// Lines without line feeds, joined by line feeds, split back into those lines.
proof fn lemma_split_join_lines(lines: Seq<Seq<char>>)
    requires
        lines.len() > 0,
        forall|i: int| 0 <= i < lines.len() ==> no_line_feed(#[trigger] lines[i]),
    ensures
        split_lf(join_lines(lines)) == lines,
    decreases lines.len(),
{
    if lines.len() == 1 {
        lemma_split_lf_line(lines[0]);
        assert(seq![lines[0]] =~= lines);
    } else {
        let init = lines.drop_last();
        assert forall|i: int| 0 <= i < init.len() implies no_line_feed(#[trigger] init[i]) by {
            assert(init[i] == lines[i]);
        }
        lemma_split_join_lines(init);
        assert(no_line_feed(lines[lines.len() - 1]));
        lemma_split_lf_line(lines.last());
        lemma_split_lf_join(join_lines(init), lines.last());
        assert(init + seq![lines.last()] =~= lines);
    }
}

/// A comment line, beginning with `!`, is no rule.
proof fn lemma_comment_is_no_rule(prefix: Seq<char>, rest: Seq<char>)
    requires
        prefix.len() > 0,
        prefix[0] == '!',
    ensures
        !spec_valid(prefix + rest),
{
    let l = prefix + rest;
    assert(l[0] == '!');
    lemma_trim_keeps_first(l);
}

/// Joining two sequences without line feeds gives one without line feeds.
proof fn lemma_no_line_feed_add(a: Seq<char>, b: Seq<char>)
    requires
        no_line_feed(a),
        no_line_feed(b),
    ensures
        no_line_feed(a + b),
{
    assert forall|i: int| 0 <= i < (a + b).len() implies #[trigger] (a + b)[i] != '\n' by {
        if i < a.len() {
            assert((a + b)[i] == a[i]);
        } else {
            assert((a + b)[i] == b[i - a.len()]);
        }
    }
}

/// Filtering a single element.
proof fn lemma_filter_single(x: Seq<char>, p: spec_fn(Seq<char>) -> bool)
    ensures
        seq![x].filter(p) == if p(x) { seq![x] } else { Seq::<Seq<char>>::empty() },
{
    let none = Seq::<Seq<char>>::empty();
    none.lemma_filter_push(x, p);
    assert(none.filter(p) =~= none) by {
        reveal(Seq::filter);
    }
    assert(none.push(x) =~= seq![x]);
    assert(none.push(x) =~= none.filter(p).push(x));
}

/// A published list reads back as its rules: when its title, date and sources hold no line
/// feed, and no rule does, the rules found in the text of the list are its rules that are
/// rule lines, trimmed, in order (equally: its rules trimmed, then those that are rule
/// lines); so a list of trimmed rule lines reads back as itself.
pub proof fn lemma_list_text_reads_back(
    title: Seq<char>,
    today: Seq<char>,
    sources: Seq<char>,
    rules: Seq<Seq<char>>,
)
    requires
        no_line_feed(title),
        no_line_feed(today),
        no_line_feed(sources),
        forall|i: int| 0 <= i < rules.len() ==> no_line_feed(#[trigger] rules[i]),
    ensures
        source_rules(spec_list_text(title, today, sources, rules)) == rules.filter(is_rule_line()).map_values(
            |l: Seq<char>| trim(l),
        ),
        source_rules(spec_list_text(title, today, sources, rules)) == rules.map_values(|l: Seq<char>| trim(l)).filter(
            is_rule_line(),
        ),
        (forall|i: int| 0 <= i < rules.len() ==> spec_valid(#[trigger] rules[i]) && trim(rules[i]) == rules[i])
            ==> source_rules(spec_list_text(title, today, sources, rules)) == rules,
{
    reveal_strlit("! ");
    reveal_strlit("\n! Generated: ");
    reveal_strlit("\n! Sources: ");
    reveal_strlit("\n\n");
    reveal_strlit("\n");
    let nl = "\n"@;
    let e = Seq::<char>::empty();
    let g = seq!['!', ' ', 'G', 'e', 'n', 'e', 'r', 'a', 't', 'e', 'd', ':', ' '];
    let o = seq!['!', ' ', 'S', 'o', 'u', 'r', 'c', 'e', 's', ':', ' '];
    let h1 = "! "@ + title;
    let h2 = g + today;
    let h3 = o + sources;
    let j = join_lines(rules);
    let x1 = h1 + nl + h2;
    let x2 = x1 + nl + h3;
    let x3 = x2 + nl + e;
    let x4 = x3 + nl + j;
    assert(spec_list_text(title, today, sources, rules) =~= x4 + nl + e);
    lemma_split_lf_join(x4, e);
    lemma_split_lf_join(x3, j);
    lemma_split_lf_join(x2, e);
    lemma_split_lf_join(x1, h3);
    lemma_split_lf_join(h1, h2);
    assert(no_line_feed("! "@));
    assert(no_line_feed(g));
    assert(no_line_feed(o));
    lemma_no_line_feed_add("! "@, title);
    lemma_no_line_feed_add(g, today);
    lemma_no_line_feed_add(o, sources);
    lemma_split_lf_line(h1);
    lemma_split_lf_line(h2);
    lemma_split_lf_line(h3);
    lemma_split_lf_line(e);
    let lines = if rules.len() > 0 { rules } else { seq![e] };
    if rules.len() > 0 {
        lemma_split_join_lines(rules);
    } else {
        lemma_split_lf_line(e);
    }
    let p = is_rule_line();
    lemma_comment_is_no_rule("! "@, title);
    lemma_comment_is_no_rule(g, today);
    lemma_comment_is_no_rule(o, sources);
    assert(!spec_valid(e));
    lemma_filter_single(h1, p);
    lemma_filter_single(h2, p);
    lemma_filter_single(h3, p);
    lemma_filter_single(e, p);
    let head = seq![h1] + seq![h2] + seq![h3] + seq![e];
    Seq::filter_distributes_over_add(seq![h1], seq![h2], p);
    Seq::filter_distributes_over_add(seq![h1] + seq![h2], seq![h3], p);
    Seq::filter_distributes_over_add(seq![h1] + seq![h2] + seq![h3], seq![e], p);
    Seq::filter_distributes_over_add(head, lines, p);
    Seq::filter_distributes_over_add(head + lines, seq![e], p);
    assert(split_lf(x4 + nl + e) == head + lines + seq![e]);
    if rules.len() == 0 {
        lemma_filter_single(e, p);
        assert(rules.filter(p) =~= Seq::<Seq<char>>::empty()) by {
            reveal(Seq::filter);
        }
    }
    assert(lines.filter(p) == rules.filter(p));
    assert((head + lines + seq![e]).filter(p) =~= rules.filter(p));
    lemma_filter_trim_commute(rules);
    if forall|i: int| 0 <= i < rules.len() ==> spec_valid(#[trigger] rules[i]) && trim(rules[i]) == rules[i] {
        lemma_filter_all(rules, p);
        assert(rules.map_values(|l: Seq<char>| trim(l)) =~= rules);
    }
}

/// Keeping the rule lines and trimming them gives what trimming and then keeping the rule
/// lines gives, since trimming does not change whether a line is a rule.
proof fn lemma_filter_trim_commute(lines: Seq<Seq<char>>)
    ensures
        lines.filter(is_rule_line()).map_values(|l: Seq<char>| trim(l)) == lines.map_values(
            |l: Seq<char>| trim(l),
        ).filter(is_rule_line()),
    decreases lines.len(),
{
    reveal(Seq::filter);
    let p = is_rule_line();
    let f = |l: Seq<char>| trim(l);
    if lines.len() > 0 {
        let init = lines.drop_last();
        let x = lines.last();
        lemma_filter_trim_commute(init);
        lemma_valid_ignores_surrounding_whitespace(x, Seq::<char>::empty(), Seq::<char>::empty());
        assert(lines.map_values(f).drop_last() =~= init.map_values(f));
        assert(lines.map_values(f).last() == trim(x));
        if p(x) {
            assert(init.filter(p).push(x).map_values(f) =~= init.filter(p).map_values(f).push(trim(x)));
        }
    } else {
        assert(lines.map_values(f) =~= lines);
    }
}

/// Appends the characters of `s`.
fn push_str(out: &mut Vec<char>, s: &str)
    ensures
        final(out)@ == old(out)@ + s@,
{
    let c = chars_of(s);
    let n = c.len();
    let ghost start = out@;
    let mut i: usize = 0;
    while i < n
        invariant
            i <= n == c@.len(),
            c@ == s@,
            out@ == start + c@.take(i as int),
        decreases n - i,
    {
        out.push(c[i]);
        i = i + 1;
        assert(start + c@.take(i as int) =~= (start + c@.take(i - 1)).push(c@[i - 1]));
    }
    assert(c@.take(n as int) =~= c@);
}

/// The text of a list with this title, generation date and sources.
pub fn list_text(title: &str, today: &str, sources: &str, rules: &[String]) -> (res: String)
    ensures
        res@ == spec_list_text(title@, today@, sources@, views(rules@)),
{
    let ghost rv = views(rules@);
    let mut out: Vec<char> = Vec::new();
    push_str(&mut out, "! ");
    push_str(&mut out, title);
    push_str(&mut out, "\n! Generated: ");
    push_str(&mut out, today);
    push_str(&mut out, "\n! Sources: ");
    push_str(&mut out, sources);
    push_str(&mut out, "\n\n");
    let ghost head = out@;
    assert(head =~= "! "@ + title@ + "\n! Generated: "@ + today@ + "\n! Sources: "@ + sources@ + "\n\n"@);
    let n = rules.len();
    let mut i: usize = 0;
    while i < n
        invariant
            i <= n == rules@.len(),
            rv == views(rules@),
            out@ == head + join_lines(rv.take(i as int)),
        decreases n - i,
    {
        let ghost before = out@;
        assert(rv.take(i + 1).drop_last() =~= rv.take(i as int));
        assert(rv.take(i + 1).last() == rules@[i as int]@);
        if i == 0 {
            push_str(&mut out, rules[i].as_str());
            assert(join_lines(rv.take(1)) == rv.take(1)[0]);
        } else {
            push_str(&mut out, "\n");
            push_str(&mut out, rules[i].as_str());
            assert(out@ =~= head + (join_lines(rv.take(i as int)) + "\n"@ + rules@[i as int]@));
        }
        i = i + 1;
    }
    assert(rv.take(n as int) =~= rv);
    push_str(&mut out, "\n");
    assert(out@ =~= spec_list_text(title@, today@, sources@, rv));
    string_of(&out)
}

/// The text of the published block list.
pub fn blocklist_text(today: &str, rules: &[String]) -> (res: String)
    ensures
        res@ == spec_list_text(
            "YT merged AdGuard blocklist"@,
            today@,
            "enabled upstream blocklists + upstream allow exceptions + custom rules"@,
            views(rules@),
        ),
{
    list_text(
        "YT merged AdGuard blocklist",
        today,
        "enabled upstream blocklists + upstream allow exceptions + custom rules",
        rules,
    )
}

/// The text of the published allow list.
pub fn allowlist_text(today: &str, rules: &[String]) -> (res: String)
    ensures
        res@ == spec_list_text(
            "YT merged AdGuard allowlist"@,
            today@,
            "enabled upstream allowlists + custom allow rules + upstream allow exceptions"@,
            views(rules@),
        ),
{
    list_text(
        "YT merged AdGuard allowlist",
        today,
        "enabled upstream allowlists + custom allow rules + upstream allow exceptions",
        rules,
    )
}

} // verus!
