use yt_adguard_rules::coverage::{parent_domains, DomainCoverage};
use yt_adguard_rules::merge::compact_domain_rules;
use yt_adguard_rules::rule::DomainRule;

fn rules(items: &[&str]) -> Vec<String> {
    items.iter().map(|rule| rule.to_string()).collect()
}

#[test]
fn parent_domains_come_nearest_first() {
    let mut parents = parent_domains("a.b.c");
    assert_eq!(parents.next(), Some("b.c".to_string()));
    assert_eq!(parents.next(), Some("c".to_string()));
    assert_eq!(parents.next(), None);
    assert_eq!(parents.next(), None);
    let mut none = parent_domains("localhost");
    assert_eq!(none.next(), None);
    let mut dotted = parent_domains("a.");
    assert_eq!(dotted.next(), Some(String::new()));
    assert_eq!(dotted.next(), None);
}

#[test]
fn coverage_queries() {
    let coverage = DomainCoverage::from_rules(&rules(&[
        "@@||example.com^$important",
        "@@||other.com^$script",
        "||blocked.org^",
        "not a rule at all",
    ]));
    assert!(coverage.domain_has_broad_rule(true, "example.com"));
    assert!(!coverage.domain_has_broad_rule(false, "example.com"));
    assert!(!coverage.domain_has_broad_rule(true, "other.com"));
    assert!(coverage.domain_has_broad_rule(false, "blocked.org"));
    assert!(coverage.domain_covers_with_suffix(true, "other.com", "^$script"));
    assert!(!coverage.domain_covers_with_suffix(true, "other.com", "^$image"));
    assert!(coverage.domain_covers_with_suffix(true, "example.com", "^$image"));
    assert!(coverage.has_broad_covering_domain(true, "a.b.example.com"));
    assert!(!coverage.has_broad_covering_domain(true, "a.b.other.com"));
    assert!(coverage.has_covering_domain(true, "x.other.com", "^$script", false));
    assert!(!coverage.has_covering_domain(true, "other.com", "^$script", false));
    assert!(coverage.has_covering_domain(true, "other.com", "^$script", true));
    let sub = DomainRule {
        exception: true,
        domain: "deep.x.example.com".to_string(),
        suffix: "^$anything".to_string(),
    };
    assert!(coverage.has_covering_parent(&sub));
    let top = DomainRule {
        exception: true,
        domain: "example.com".to_string(),
        suffix: "^".to_string(),
    };
    assert!(!coverage.has_covering_parent(&top));
}

#[test]
fn covers_block_rule_on_hosts_entries_needs_a_broad_exception() {
    let coverage = DomainCoverage::from_rules(&rules(&["@@||a.com^", "@@||b.com^$script"]));
    assert!(coverage.covers_block_rule("0.0.0.0 x.a.com"));
    assert!(coverage.covers_block_rule("a.com"));
    assert!(!coverage.covers_block_rule("0.0.0.0 x.b.com"));
    assert!(!coverage.covers_block_rule("@@||x.a.com^"));
    assert!(!coverage.covers_block_rule("! comment a.com"));
}

#[test]
fn insert_records_broad_and_suffixed_rules() {
    let mut coverage = DomainCoverage::new();
    coverage.insert(DomainRule {
        exception: false,
        domain: "x.com".to_string(),
        suffix: "^$image".to_string(),
    });
    assert!(!coverage.domain_has_broad_rule(false, "x.com"));
    assert!(coverage.domain_covers_with_suffix(false, "x.com", "^$image"));
    coverage.insert(DomainRule {
        exception: false,
        domain: "x.com".to_string(),
        suffix: "^".to_string(),
    });
    assert!(coverage.domain_has_broad_rule(false, "x.com"));
}

#[test]
fn an_exception_rule_on_the_same_domain_covers_any_block_rule_for_it() {
    let coverage = DomainCoverage::from_rules(&rules(&["@@||example.com^$script"]));
    assert!(coverage.covers_block_rule("||example.com^$image"));
    assert!(coverage.covers_block_rule("||example.com^"));
    assert!(coverage.covers_block_rule("@@||example.com^$image"));
    assert!(coverage.covers_block_rule("0.0.0.0 example.com"));
    assert!(coverage.covers_block_rule("example.com"));
    assert!(coverage.covers_block_rule("||cdn.example.com^$script"));
    assert!(!coverage.covers_block_rule("||cdn.example.com^$image"));
    assert!(!coverage.covers_block_rule("0.0.0.0 cdn.example.com"));
    assert!(!coverage.covers_block_rule("@@||cdn.example.com^$script"));
    assert!(!coverage.covers_block_rule("||other.com^"));
}

#[test]
fn a_blocking_rule_on_the_domain_covers_no_block_rule() {
    let coverage = DomainCoverage::from_rules(&rules(&["||example.com^"]));
    assert!(!coverage.covers_block_rule("||example.com^$image"));
    assert!(!coverage.covers_block_rule("0.0.0.0 example.com"));
}

#[test]
fn compacting_an_allow_list_keeps_what_compares_options() {
    let allow = rules(&["@@||p.com^$script", "@@||a.p.com^$script"]);
    let full = DomainCoverage::from_rules(&allow);
    let compacted = DomainCoverage::from_rules(&compact_domain_rules(allow.clone()));
    assert!(full.covers_block_rule("||a.p.com^$script"));
    assert!(compacted.covers_block_rule("||a.p.com^$script"));
    assert!(full.has_covering_domain(true, "a.p.com", "^$script", true));
    assert!(compacted.has_covering_domain(true, "a.p.com", "^$script", true));
    // the dropped subdomain rule took its own-domain cover with it
    assert!(full.covers_block_rule("||a.p.com^$image"));
    assert!(!compacted.covers_block_rule("||a.p.com^$image"));
}
