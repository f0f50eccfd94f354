use yt_adguard_rules::pipeline::{
    add_source_rules, audit_merged_lists, covered_subdomain_rules, dedup_rules, merge_rules,
    overlapping_rules, route_rule, rule_lines, AuditFailure, SourceKind,
};

fn rules(items: &[&str]) -> Vec<String> {
    items.iter().map(|rule| rule.to_string()).collect()
}

#[test]
fn rule_lines_trims_and_skips_non_rules() {
    assert_eq!(
        rule_lines("! title\r\n||a.com^\r\n\r\n  @@||b.com^  \n[Adblock]\n# x\nc.com"),
        rules(&["||a.com^", "@@||b.com^", "c.com"])
    );
    assert_eq!(rule_lines(""), Vec::<String>::new());
    assert_eq!(rule_lines("\n\n"), Vec::<String>::new());
}

#[test]
fn whitelist_rules_become_exceptions() {
    assert_eq!(route_rule(SourceKind::Whitelist, "||a.com^"), (true, "@@||a.com^".to_string()));
    assert_eq!(route_rule(SourceKind::Whitelist, "@@||a.com^"), (true, "@@||a.com^".to_string()));
    assert_eq!(route_rule(SourceKind::Filter, "@@||a.com^"), (true, "@@||a.com^".to_string()));
    assert_eq!(route_rule(SourceKind::Filter, "||a.com^"), (false, "||a.com^".to_string()));
}

#[test]
fn add_source_rules_routes_every_line() {
    let mut allow = Vec::new();
    let mut block = Vec::new();
    add_source_rules(SourceKind::Filter, "||x.com^\n@@||y.com^\n! c\n", &mut allow, &mut block);
    add_source_rules(SourceKind::Whitelist, "z.com\n@@||w.com^", &mut allow, &mut block);
    assert_eq!(allow, rules(&["@@||y.com^", "@@z.com", "@@||w.com^"]));
    assert_eq!(block, rules(&["||x.com^"]));
}

#[test]
fn dedup_rules_removes_neighbouring_duplicates() {
    assert_eq!(
        dedup_rules(rules(&["a", "a", "b", "a", "a"])),
        rules(&["a", "b", "a"])
    );
}

#[test]
fn merge_lets_allow_rules_win() {
    let (allow, block) = merge_rules(
        rules(&[
            "@@||zijieapi.com^$important",
            "@@||mssdk3-normal-hj.zijieapi.com^$important",
            "@@||example.com^$script",
            "@@||zijieapi.com^$important",
        ]),
        rules(&[
            "||zijieapi.com^",
            "||ads.zijieapi.com^",
            "||cdn.example.com^$script",
            "||cdn.example.com^$image",
            "||tracker.net^",
            "||a.tracker.net^",
            "||tracker.net^",
            "0.0.0.0 x.zijieapi.com",
            "0.0.0.0 y.example.com",
        ]),
    );
    assert_eq!(allow, rules(&["@@||example.com^$script", "@@||zijieapi.com^$important"]));
    assert_eq!(
        block,
        rules(&["0.0.0.0 y.example.com", "||cdn.example.com^$image", "||tracker.net^"])
    );
    assert!(overlapping_rules(&block, &allow).is_empty());
    assert!(covered_subdomain_rules(&allow).is_empty());
    assert!(covered_subdomain_rules(&block).is_empty());
}

#[test]
fn audits_report_offenders() {
    let list = rules(&["||a.com^", "||x.a.com^", "||y.a.com^$script"]);
    assert_eq!(
        covered_subdomain_rules(&list),
        vec![
            ("||x.a.com^".to_string(), "x.a.com".to_string()),
            ("||y.a.com^$script".to_string(), "y.a.com".to_string()),
        ]
    );
    let allow = rules(&["@@||a.com^"]);
    assert_eq!(
        overlapping_rules(&rules(&["||b.a.com^", "||c.com^", "0.0.0.0 d.a.com"]), &allow),
        vec![
            ("||b.a.com^".to_string(), "b.a.com".to_string()),
            ("0.0.0.0 d.a.com".to_string(), "d.a.com".to_string()),
        ]
    );
}

#[test]
fn audits_report_at_most_twenty() {
    let mut list = vec!["||a.com^".to_string()];
    for i in 0..30 {
        list.push(format!("||s{i}.a.com^"));
    }
    assert_eq!(covered_subdomain_rules(&list).len(), 20);
    assert_eq!(covered_subdomain_rules(&list)[0].0, "||s0.a.com^");
}

#[test]
fn broad_allow_clears_the_domain_and_its_subdomains() {
    let (allow, block) = merge_rules(
        rules(&["@@||d.com^"]),
        rules(&[
            "||d.com^$script",
            "||x.d.com^",
            "0.0.0.0 d.com",
            "0.0.0.0 y.x.d.com",
            "||notd.com^",
            "@@||d.com^",
        ]),
    );
    assert_eq!(allow, rules(&["@@||d.com^"]));
    assert_eq!(block, rules(&["||notd.com^"]));
}

#[test]
fn allow_rule_on_the_same_domain_clears_block_rules_with_other_options() {
    let (allow, block) = merge_rules(
        rules(&["@@||e.com^$script"]),
        rules(&[
            "||e.com^",
            "||e.com^$image",
            "@@||e.com^$image",
            "0.0.0.0 e.com",
            "||cdn.e.com^$image",
            "0.0.0.0 cdn.e.com",
        ]),
    );
    assert_eq!(allow, rules(&["@@||e.com^$script"]));
    assert_eq!(block, rules(&["0.0.0.0 cdn.e.com", "||cdn.e.com^$image"]));
}

#[test]
fn block_rules_held_verbatim_by_the_allow_list_are_dropped() {
    let (allow, block) = merge_rules(
        rules(&["||x.com^", "##.banner"]),
        rules(&["||x.com^", "##.banner", "||y.com^", "##.other"]),
    );
    assert_eq!(allow, rules(&["##.banner", "||x.com^"]));
    assert_eq!(block, rules(&["##.other", "||y.com^"]));
}

#[test]
fn merged_lists_share_no_rule_and_no_excepted_domain() {
    let (allow, block) = merge_rules(
        rules(&["@@||a.com^$script", "@@||b.com^$important", "##.ad", "@@||c.net^$image"]),
        rules(&[
            "||a.com^",
            "0.0.0.0 b.com",
            "||x.b.com^$image",
            "##.ad",
            "@@||c.net^$script",
            "||c.net^$image",
            "||d.org^",
        ]),
    );
    assert_eq!(block, rules(&["||d.org^"]));
    for y in &block {
        assert!(!allow.contains(y));
    }
    assert!(overlapping_rules(&block, &allow).is_empty());
}

#[test]
fn merged_lists_are_strictly_sorted() {
    let (allow, block) = merge_rules(
        rules(&["@@||b.com^", "@@||a.com^", "@@||b.com^"]),
        rules(&["||z.com^", "||y.com^", "||z.com^", "0.0.0.0 q.com"]),
    );
    assert_eq!(allow, rules(&["@@||a.com^", "@@||b.com^"]));
    assert_eq!(block, rules(&["0.0.0.0 q.com", "||y.com^", "||z.com^"]));
}

#[test]
fn an_allow_rule_dropped_by_compaction_still_clears_its_domain() {
    let (allow, block) = merge_rules(
        rules(&["@@||p.com^$script", "@@||a.p.com^$script"]),
        rules(&["||a.p.com^$image", "||b.p.com^$image"]),
    );
    assert_eq!(allow, rules(&["@@||p.com^$script"]));
    assert_eq!(block, rules(&["||b.p.com^$image"]));
}

#[test]
fn audit_verdict_names_the_first_failing_audit() {
    assert!(audit_merged_lists(&rules(&["||b.com^"]), &rules(&["@@||a.com^"])).is_ok());
    match audit_merged_lists(&rules(&["||b.com^"]), &rules(&["@@||a.com^", "@@||x.a.com^"])) {
        Err(AuditFailure::RedundantAllow(v)) => {
            assert_eq!(v, vec![("@@||x.a.com^".to_string(), "x.a.com".to_string())])
        }
        other => panic!("{other:?}"),
    }
    match audit_merged_lists(&rules(&["||b.com^", "||y.b.com^"]), &rules(&["@@||a.com^"])) {
        Err(AuditFailure::RedundantBlock(v)) => {
            assert_eq!(v, vec![("||y.b.com^".to_string(), "y.b.com".to_string())])
        }
        other => panic!("{other:?}"),
    }
    match audit_merged_lists(&rules(&["||x.a.com^"]), &rules(&["@@||a.com^"])) {
        Err(AuditFailure::Overlap(v)) => {
            assert_eq!(v, vec![("||x.a.com^".to_string(), "x.a.com".to_string())])
        }
        other => panic!("{other:?}"),
    }
}

#[test]
fn merged_lists_pass_the_audits() {
    let (allow, block) = merge_rules(
        rules(&["@@||a.com^", "@@||x.a.com^$script", "@@||b.com^$image"]),
        rules(&["||a.com^", "||c.com^", "||y.c.com^", "0.0.0.0 b.com", "||z.b.com^$image"]),
    );
    assert!(audit_merged_lists(&block, &allow).is_ok());
}
