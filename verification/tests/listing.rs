use yt_adguard_rules::listing::{allowlist_text, blocklist_text, list_text};
use yt_adguard_rules::pipeline::rule_lines;

fn rules(items: &[&str]) -> Vec<String> {
    items.iter().map(|rule| rule.to_string()).collect()
}

#[test]
fn list_text_has_header_then_rules() {
    assert_eq!(
        list_text("T", "2024-05-01", "S", &rules(&["a", "b"])),
        "! T\n! Generated: 2024-05-01\n! Sources: S\n\na\nb\n"
    );
    assert_eq!(list_text("T", "d", "S", &[]), "! T\n! Generated: d\n! Sources: S\n\n\n");
}

#[test]
fn published_lists_match_their_format() {
    let block = rules(&["0.0.0.0 q.com", "||y.com^"]);
    assert_eq!(
        blocklist_text("2024-05-01", &block),
        format!(
            "! YT merged AdGuard blocklist\n\
             ! Generated: 2024-05-01\n\
             ! Sources: enabled upstream blocklists + upstream allow exceptions + custom rules\n\n\
             {}\n",
            block.join("\n")
        )
    );
    let allow = rules(&["@@||a.com^"]);
    assert_eq!(
        allowlist_text("2024-05-01", &allow),
        format!(
            "! YT merged AdGuard allowlist\n\
             ! Generated: 2024-05-01\n\
             ! Sources: enabled upstream allowlists + custom allow rules + upstream allow exceptions\n\n\
             {}\n",
            allow.join("\n")
        )
    );
}

#[test]
fn a_published_list_reads_back_as_its_rules() {
    let block = rules(&["0.0.0.0 q.com", "||y.com^", "example.org"]);
    assert_eq!(rule_lines(&blocklist_text("2024-05-01", &block)), block);
}

#[test]
fn a_published_list_reads_back_as_its_trimmed_rule_lines() {
    let block = rules(&["  ||y.com^ ", "! note", "", "\tq.com", "[Adblock]"]);
    assert_eq!(
        rule_lines(&blocklist_text("2024-05-01", &block)),
        rules(&["||y.com^", "q.com"])
    );
}
