use yt_adguard_rules::rule::{
    adblock_domain_rule, domain_key, host_domain_key, normalize_domain, valid, DomainRule,
};

fn rule(exception: bool, domain: &str, suffix: &str) -> DomainRule {
    DomainRule { exception, domain: domain.to_string(), suffix: suffix.to_string() }
}

#[test]
fn valid_skips_comments_headers_and_path_rules() {
    assert!(valid("||example.com^"));
    assert!(valid("  @@||example.com^  "));
    assert!(valid("example.com"));
    assert!(!valid(""));
    assert!(!valid("   \t "));
    assert!(!valid("! comment"));
    assert!(!valid("# comment"));
    assert!(!valid("[Adblock Plus 2.0]"));
    assert!(!valid("$removeparam=utm_source"));
    assert!(!valid("/banner/*/img^"));
    assert!(valid("$important"));
    assert!(valid("|https://x.com"));
}

#[test]
fn adblock_rules_parse_into_exception_domain_and_options() {
    assert_eq!(adblock_domain_rule("||example.com^"), Some(rule(false, "example.com", "^")));
    assert_eq!(adblock_domain_rule("||example.com"), Some(rule(false, "example.com", "^")));
    assert_eq!(
        adblock_domain_rule("  @@||Example.COM.^$important "),
        Some(rule(true, "example.com", "^$important"))
    );
    assert_eq!(
        adblock_domain_rule("||ads*-normal-lf.zijieapi.com^"),
        Some(rule(false, "ads*-normal-lf.zijieapi.com", "^"))
    );
    assert_eq!(
        adblock_domain_rule("||cdn.example.com^$script,third-party"),
        Some(rule(false, "cdn.example.com", "^$script,third-party"))
    );
}

#[test]
fn adblock_rules_that_do_not_match() {
    assert_eq!(adblock_domain_rule("example.com"), None);
    assert_eq!(adblock_domain_rule("|example.com^"), None);
    assert_eq!(adblock_domain_rule("||^"), None);
    assert_eq!(adblock_domain_rule("||example.com/path"), None);
    assert_eq!(adblock_domain_rule("||example.com$script"), None);
    assert_eq!(adblock_domain_rule("@||example.com^"), None);
    assert_eq!(adblock_domain_rule("||example.com^a\nb"), None);
}

#[test]
fn hosts_entries_give_their_domain() {
    assert_eq!(host_domain_key("0.0.0.0 Ads.Example.com"), Some("ads.example.com".to_string()));
    assert_eq!(host_domain_key("127.0.0.1\t\tx.y"), Some("x.y".to_string()));
    assert_eq!(host_domain_key("example.com."), Some("example.com".to_string()));
    assert_eq!(host_domain_key("*.example.com"), Some("*.example.com".to_string()));
    assert_eq!(host_domain_key("1.2.3.4"), Some("1.2.3.4".to_string()));
    assert_eq!(host_domain_key("127.0.0.1 localhost"), None);
    assert_eq!(host_domain_key("example"), None);
    assert_eq!(host_domain_key(".com"), None);
    assert_eq!(host_domain_key("a.b*"), None);
    assert_eq!(host_domain_key("a b.com"), None);
    assert_eq!(host_domain_key("||example.com^"), None);
}

#[test]
fn domain_key_prefers_the_adblock_form() {
    assert_eq!(domain_key("@@||A.com^$image"), Some("a.com".to_string()));
    assert_eq!(domain_key("0.0.0.0 b.com"), Some("b.com".to_string()));
    assert_eq!(domain_key("/regex/"), None);
}

#[test]
fn normalize_strips_trailing_dots_and_lowercases_ascii() {
    assert_eq!(normalize_domain("ExAmple.COM.."), "example.com");
    assert_eq!(normalize_domain("ÄBC.de"), "Äbc.de");
    assert_eq!(normalize_domain(""), "");
    assert_eq!(normalize_domain("..."), "");
}

#[test]
fn is_broad_covers_caret_and_important() {
    assert!(rule(false, "a.com", "^").is_broad());
    assert!(rule(true, "a.com", "^$important").is_broad());
    assert!(!rule(true, "a.com", "^$script").is_broad());
    assert!(!rule(true, "a.com", "^$importan").is_broad());
}

#[test]
fn grammar_agrees_with_the_regular_expressions() {
    let adblock = regex::Regex::new(r"^(@@)?\|\|([^\^/$|]+)(\^.*)?$").unwrap();
    let host =
        regex::Regex::new(r"^(?:[0-9.]+\s+)?([A-Za-z0-9*._-]+\.[A-Za-z0-9._-]+)$").unwrap();
    let samples = [
        "||example.com^",
        "@@||example.com^$important",
        "||a|b^",
        "||a$b",
        "@@||",
        "||x.y^\u{2028}z",
        "||x.y^a\nb",
        "0.0.0.0 example.com",
        "0.0.0.0\u{3000}example.com",
        "1.2.3.4",
        "a.b",
        "*.a",
        "a.*",
        "-.-",
        "127.0.0.1 localhost",
        "12 34 a.b",
        "1a example.com",
        "example.com.",
        "x..y",
        "..",
        "...",
        "ä.com",
    ];
    for s in samples {
        let expected = adblock.captures(s.trim()).map(|c| {
            (
                c.get(1).is_some(),
                c.get(2).unwrap().as_str().trim_end_matches('.').to_ascii_lowercase(),
                c.get(3).map_or_else(|| "^".to_string(), |m| m.as_str().to_string()),
            )
        });
        let got = adblock_domain_rule(s).map(|r| (r.exception, r.domain, r.suffix));
        assert_eq!(got, expected, "adblock pattern on {s:?}");
        let expected_host = host.captures(s.trim()).and_then(|c| {
            c.get(1).map(|m| m.as_str().trim_end_matches('.').to_ascii_lowercase())
        });
        assert_eq!(host_domain_key(s), expected_host, "hosts pattern on {s:?}");
    }
}

#[test]
fn surrounding_whitespace_never_changes_validity() {
    for line in ["||a.com^", "! c", "", "/re/", "@@||a.com^", "$removeparam=x", "a.com"] {
        assert_eq!(valid(line), valid(line.trim()), "{:?}", line);
        assert_eq!(valid(&format!(" \t{line} \u{3000}")), valid(line), "{:?}", line);
    }
}

#[test]
fn normalising_twice_is_normalising_once() {
    let once = normalize_domain("WWW.Example.COM..");
    assert_eq!(once, "www.example.com");
    assert_eq!(normalize_domain(&once), once);
    assert_eq!(normalize_domain("..."), "");
    assert_eq!(normalize_domain("ÄB.c"), "Äb.c");
}
