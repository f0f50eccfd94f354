use yt_adguard_rules::coverage::DomainCoverage;
use yt_adguard_rules::merge::compact_domain_rules;

fn rules(items: &[&str]) -> Vec<String> {
    items.iter().map(|rule| rule.to_string()).collect()
}

#[test]
fn compact_domain_rules_keeps_parent_and_drops_covered_subdomains() {
    assert_eq!(
        compact_domain_rules(rules(&[
            "@@||example.com^$important",
            "@@||a.example.com^$important",
            "@@||b.a.example.com^$important",
            "@@||other.com^$script",
            "@@||x.other.com^$script",
            "@@||keep.other.com^$image",
        ])),
        rules(&[
            "@@||example.com^$important",
            "@@||keep.other.com^$image",
            "@@||other.com^$script",
        ])
    );
}

#[test]
fn allow_coverage_removes_blocked_subdomains() {
    let allow = compact_domain_rules(rules(&[
        "@@||zijieapi.com^$important",
        "@@||mssdk3-normal-hj.zijieapi.com^$important",
        "@@||example.com^$script",
    ]));
    let coverage = DomainCoverage::from_rules(&allow);

    assert_eq!(
        allow,
        rules(&["@@||example.com^$script", "@@||zijieapi.com^$important"])
    );
    assert!(coverage.covers_block_rule("||zijieapi.com^"));
    assert!(coverage.covers_block_rule("||mssdk3-normal-hj.zijieapi.com^"));
    assert!(coverage.covers_block_rule("||ads*-normal-lf.zijieapi.com^"));
    assert!(coverage.covers_block_rule("||cdn.example.com^$script"));
    assert!(!coverage.covers_block_rule("||cdn.example.com^$image"));
    assert!(!coverage.covers_block_rule("||zijieapi.com.c.dsa.cdnbuild.net^"));
}

#[test]
fn host_rules_are_not_compacted_as_parent_domains() {
    assert_eq!(
        compact_domain_rules(rules(&["example.com", "sub.example.com"])),
        rules(&["example.com", "sub.example.com"])
    );
}

#[test]
fn compact_is_idempotent_on_a_sample() {
    let once = compact_domain_rules(rules(&[
        "||b.example.com^",
        "||example.com^",
        "||a.b.example.com^$script",
        "! comment-like text is kept as an opaque rule",
        "0.0.0.0 ads.example.org",
    ]));
    let twice = compact_domain_rules(once.clone());
    assert_eq!(once, twice);
    assert_eq!(
        once,
        rules(&[
            "! comment-like text is kept as an opaque rule",
            "0.0.0.0 ads.example.org",
            "||example.com^",
        ])
    );
}

#[test]
fn compact_sorts_by_characters_and_keeps_duplicates() {
    assert_eq!(
        compact_domain_rules(rules(&["||b.com^", "||a.com^", "||b.com^"])),
        rules(&["||a.com^", "||b.com^", "||b.com^"])
    );
}

#[test]
fn compact_keeps_exception_and_block_rules_apart() {
    // an exception parent does not cover a blocking subdomain rule
    assert_eq!(
        compact_domain_rules(rules(&["@@||example.com^", "||a.example.com^"])),
        rules(&["@@||example.com^", "||a.example.com^"])
    );
}

#[test]
fn compact_parent_with_other_options_does_not_cover() {
    assert_eq!(
        compact_domain_rules(rules(&["||example.com^$script", "||a.example.com^$image"])),
        rules(&["||a.example.com^$image", "||example.com^$script"])
    );
}

#[test]
fn compaction_loses_no_coverage() {
    let input = rules(&[
        "||a.example.com^$script",
        "||example.com^",
        "||b.a.example.com^",
        "||other.net^$image",
        "||x.other.net^$image",
    ]);
    let out = compact_domain_rules(input.clone());
    assert_eq!(out, rules(&["||example.com^", "||other.net^$image"]));
    let coverage = DomainCoverage::from_rules(&out);
    assert!(coverage.has_covering_domain(false, "a.example.com", "^$script", true));
    assert!(coverage.has_covering_domain(false, "b.a.example.com", "^", true));
    assert!(coverage.has_covering_domain(false, "x.other.net", "^$image", true));
}
