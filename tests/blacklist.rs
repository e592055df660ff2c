use bind_manager::listing::{domain_noun, list_domains, listing_width, render_row, sort_domains, str_le, ListedDomain};
use bind_manager::reason_log::{load_reason_log, save_reason_log, DomainEntry, ReasonLog};
use bind_manager::registry::{
    add_domain, add_report, reload_report, remove_domain, remove_report, AddOutcome, RemoveOutcome,
};
use bind_manager::zone::{parse_domain_from_line, zone_declaration, ZoneFile};

fn decl_count(zone: &ZoneFile, domain: &str) -> usize {
    zone.domains().iter().filter(|d| d.as_str() == domain).count()
}

fn log_pairs(log: &ReasonLog) -> Vec<(String, String)> {
    log.entries().iter().map(|e| (e.domain.clone(), e.reason.clone())).collect()
}

fn rows(log: &ReasonLog, zone: &ZoneFile) -> Vec<(String, String)> {
    list_domains(log, zone).into_iter().map(|r| (r.domain, r.reason)).collect()
}

#[test]
fn parse_declaration_line() {
    let line = "zone \"bad.example.com\" {type master; file \"/etc/bind/zones/master/blockeddomains.db\";};";
    assert_eq!(parse_domain_from_line(line), Some("bad.example.com".to_string()));
}

#[test]
fn parse_skips_other_lines() {
    assert_eq!(parse_domain_from_line(""), None);
    assert_eq!(parse_domain_from_line("zone"), None);
    assert_eq!(parse_domain_from_line("zone example.com {};"), None);
    assert_eq!(parse_domain_from_line("// a \"comment"), None);
    assert_eq!(parse_domain_from_line("   "), None);
}

#[test]
fn parse_handles_whitespace_and_quotes() {
    assert_eq!(parse_domain_from_line("  zone\t \"a.b\"   x"), Some("a.b".to_string()));
    assert_eq!(parse_domain_from_line("zone\u{a0}\"u.v\""), Some("u.v".to_string()));
    assert_eq!(parse_domain_from_line("zone \"\"\"x.y\"\" {"), Some("x.y".to_string()));
    assert_eq!(parse_domain_from_line("zone \"\"\" {"), Some(String::new()));
    assert_eq!(parse_domain_from_line("zone \" {"), Some(String::new()));
    assert_eq!(parse_domain_from_line("zone \"a\"b\" {"), Some("a\"b".to_string()));
}

#[test]
fn declaration_text() {
    assert_eq!(
        zone_declaration("evil.test"),
        "zone \"evil.test\" {type master; file \"/etc/bind/zones/master/blockeddomains.db\";};"
    );
    assert_eq!(parse_domain_from_line(&zone_declaration("evil.test")), Some("evil.test".to_string()));
}

#[test]
fn add_new_domain_then_list() {
    let mut log = ReasonLog::new();
    let mut zone = ZoneFile::new();
    let out = add_domain(&mut log, &mut zone, "a.com", "phishing");
    assert!(matches!(out, AddOutcome::Added));
    assert_eq!(rows(&log, &zone), vec![("a.com".to_string(), "phishing".to_string())]);
    assert_eq!(zone.lines.len(), 2);
    assert_eq!(zone.lines[1], "");
}

#[test]
fn scenario_two_adds_then_list() {
    let mut log = ReasonLog::new();
    let mut zone = ZoneFile::new();
    add_domain(&mut log, &mut zone, "bad.example.com", "spam");
    add_domain(&mut log, &mut zone, "evil.test", "");
    assert_eq!(
        rows(&log, &zone),
        vec![
            ("bad.example.com".to_string(), "spam".to_string()),
            ("evil.test".to_string(), String::new()),
        ]
    );
}

#[test]
fn scenario_add_same_domain_twice() {
    let mut log = ReasonLog::new();
    let mut zone = ZoneFile::new();
    let first = add_domain(&mut log, &mut zone, "x.com", "abuse");
    let second = add_domain(&mut log, &mut zone, "x.com", "fraud");
    assert!(matches!(first, AddOutcome::Added));
    assert!(matches!(second, AddOutcome::ReasonUpdated));
    assert_eq!(log_pairs(&log), vec![("x.com".to_string(), "fraud".to_string())]);
    assert_eq!(decl_count(&zone, "x.com"), 1);
    assert_eq!(zone.lines.len(), 2);
}

#[test]
fn add_existing_keeps_position() {
    let mut log = ReasonLog::new();
    let mut zone = ZoneFile::new();
    add_domain(&mut log, &mut zone, "b.com", "1");
    add_domain(&mut log, &mut zone, "a.com", "2");
    add_domain(&mut log, &mut zone, "b.com", "3");
    assert_eq!(
        log_pairs(&log),
        vec![("b.com".to_string(), "3".to_string()), ("a.com".to_string(), "2".to_string())]
    );
}

#[test]
fn add_then_remove() {
    let mut log = ReasonLog::new();
    let mut zone = ZoneFile::new();
    add_domain(&mut log, &mut zone, "keep.org", "k");
    add_domain(&mut log, &mut zone, "gone.org", "g");
    let out = remove_domain(&mut log, &mut zone, "gone.org");
    assert!(out.from_log);
    assert!(out.from_zone);
    assert!(!out.not_found());
    assert_eq!(log_pairs(&log), vec![("keep.org".to_string(), "k".to_string())]);
    assert_eq!(decl_count(&zone, "gone.org"), 0);
    assert_eq!(rows(&log, &zone), vec![("keep.org".to_string(), "k".to_string())]);
    assert_eq!(remove_report(&out, "gone.org"), "Domain gone.org removed from blacklist.");
}

#[test]
fn scenario_remove_missing_domain() {
    let mut log = ReasonLog::new();
    let mut zone = ZoneFile::new();
    add_domain(&mut log, &mut zone, "a.com", "r");
    let lines_before = zone.lines.clone();
    let out = remove_domain(&mut log, &mut zone, "nothere.com");
    assert!(out.not_found());
    assert_eq!(zone.lines, lines_before);
    assert_eq!(log_pairs(&log), vec![("a.com".to_string(), "r".to_string())]);
    assert_eq!(remove_report(&out, "nothere.com"), "Domain not found.");
}

#[test]
fn remove_is_structural_not_substring() {
    let mut log = ReasonLog::new();
    let mut zone = ZoneFile::new();
    add_domain(&mut log, &mut zone, "xx.com", "a");
    add_domain(&mut log, &mut zone, "x.com", "b");
    let out = remove_domain(&mut log, &mut zone, "x.com");
    assert!(out.from_zone);
    assert_eq!(decl_count(&zone, "xx.com"), 1);
    assert_eq!(rows(&log, &zone), vec![("xx.com".to_string(), "a".to_string())]);
}

#[test]
fn remove_from_one_store_only() {
    let mut log = ReasonLog::new();
    log.upsert("only.log", "r");
    let mut zone = ZoneFile::new();
    let out = remove_domain(&mut log, &mut zone, "only.log");
    assert!(out.from_log && !out.from_zone);
    assert_eq!(remove_report(&out, "only.log"), "Domain only.log removed from the reason log.");
    assert_eq!(log.len(), 0);
}

#[test]
fn list_sorted_regardless_of_order() {
    let mut log = ReasonLog::new();
    let mut zone = ZoneFile::new();
    for d in ["c.net", "a.net", "b.net", "aa.net"] {
        add_domain(&mut log, &mut zone, d, d);
    }
    let names: Vec<String> = rows(&log, &zone).into_iter().map(|r| r.0).collect();
    assert_eq!(names, vec!["a.net", "aa.net", "b.net", "c.net"]);
}

#[test]
fn list_uses_placeholder_when_reason_missing() {
    let log = ReasonLog::new();
    let zone = ZoneFile::from_lines(vec![
        zone_declaration("z.com"),
        String::new(),
        "zone \"y.com\" {type master;};".to_string(),
    ]);
    assert_eq!(
        rows(&log, &zone),
        vec![
            ("y.com".to_string(), "No reason provided.".to_string()),
            ("z.com".to_string(), "No reason provided.".to_string()),
        ]
    );
}

#[test]
fn load_save_round_trip() {
    let entries = vec![
        DomainEntry::new("z.com", "1"),
        DomainEntry::new("a.com", "2"),
        DomainEntry::new("m.com", ""),
    ];
    let log = load_reason_log(Some(entries));
    let saved = save_reason_log(&log);
    let pairs: Vec<(String, String)> = saved.into_iter().map(|e| (e.domain, e.reason)).collect();
    assert_eq!(
        pairs,
        vec![
            ("z.com".to_string(), "1".to_string()),
            ("a.com".to_string(), "2".to_string()),
            ("m.com".to_string(), String::new()),
        ]
    );
}

#[test]
fn load_missing_or_corrupt_is_empty() {
    let log = load_reason_log(None);
    assert_eq!(log.len(), 0);
    assert!(save_reason_log(&log).is_empty());
}

#[test]
fn load_keeps_repeated_domains_as_stored() {
    let entries = vec![
        DomainEntry::new("a.com", "x"),
        DomainEntry::new("b.com", "b"),
        DomainEntry::new("a.com", "y"),
    ];
    let mut log = load_reason_log(Some(entries));
    assert_eq!(
        log_pairs(&log),
        vec![
            ("a.com".to_string(), "x".to_string()),
            ("b.com".to_string(), "b".to_string()),
            ("a.com".to_string(), "y".to_string()),
        ]
    );
    assert_eq!(save_reason_log(&log).len(), 3);
    assert_eq!(log.find("a.com"), Some(0));
    assert_eq!(log.find("b.com"), Some(1));
    assert_eq!(log.find("c.com"), None);
    assert_eq!(log.reason_of("a.com"), Some("x".to_string()));
    assert_eq!(log.reason_of("c.com"), None);
    assert!(log.upsert("a.com", "z"));
    assert_eq!(log_pairs(&log)[0], ("a.com".to_string(), "z".to_string()));
    assert_eq!(log_pairs(&log)[2], ("a.com".to_string(), "y".to_string()));
    assert!(log.remove("a.com"));
    assert_eq!(
        log_pairs(&log),
        vec![("b.com".to_string(), "b".to_string()), ("a.com".to_string(), "y".to_string())]
    );
    assert_eq!(log.reason_of("a.com"), Some("y".to_string()));
}

#[test]
fn from_entries_keeps_order() {
    let log = ReasonLog::from_entries(vec![DomainEntry::new("q.com", "1"), DomainEntry::new("p.com", "2")]);
    assert_eq!(
        log_pairs(&log),
        vec![("q.com".to_string(), "1".to_string()), ("p.com".to_string(), "2".to_string())]
    );
}

#[test]
fn sort_matches_std_order() {
    let input: Vec<String> = ["b", "ä", "a", "Z", "ab", "", "a", "zz", "\u{1F600}", "é"]
        .iter()
        .map(|s| s.to_string())
        .collect();
    let mut expected = input.clone();
    expected.sort();
    assert_eq!(sort_domains(input), expected);
}

#[test]
fn string_order() {
    assert!(str_le("a", "b"));
    assert!(str_le("a", "ab"));
    assert!(str_le("", ""));
    assert!(!str_le("b", "a"));
    assert!(!str_le("ab", "a"));
    assert!(str_le("Z", "a"));
}

#[test]
fn row_rendering_pads_domain() {
    let list = vec![
        ListedDomain { domain: "a.io".to_string(), reason: "x".to_string() },
        ListedDomain { domain: "longer.io".to_string(), reason: "y".to_string() },
    ];
    let w = listing_width(&list);
    assert_eq!(w, 9);
    assert_eq!(render_row(&list[0], w), " - a.io      \u{bb} x");
    assert_eq!(render_row(&list[1], w), " - longer.io \u{bb} y");
    assert_eq!(render_row(&list[1], 3), " - longer.io \u{bb} y");
    assert_eq!(listing_width(&Vec::new()), 0);
}

#[test]
fn reports() {
    assert_eq!(domain_noun(1), "domain");
    assert_eq!(domain_noun(0), "domains");
    assert_eq!(domain_noun(2), "domains");
    assert_eq!(reload_report(true), "BIND reloaded successfully.");
    assert_eq!(reload_report(false), "Failed to reload BIND.");
    assert_eq!(add_report(&AddOutcome::Added, "q.com"), "Domain q.com added to blacklist.");
    assert_eq!(
        add_report(&AddOutcome::ReasonUpdated, "q.com"),
        "Record already exists, updated reason for domain q.com."
    );
    let none = RemoveOutcome { from_log: false, from_zone: false };
    assert!(none.not_found());
}

#[test]
fn listing_ignores_declaration_order() {
    let mut log = ReasonLog::new();
    log.upsert("b.org", "bee");
    let z1 = ZoneFile::from_lines(vec![zone_declaration("b.org"), zone_declaration("a.org")]);
    let z2 = ZoneFile::from_lines(vec![zone_declaration("a.org"), String::new(), zone_declaration("b.org")]);
    let r1 = rows(&log, &z1);
    assert_eq!(r1, rows(&log, &z2));
    assert_eq!(
        r1,
        vec![
            ("a.org".to_string(), "No reason provided.".to_string()),
            ("b.org".to_string(), "bee".to_string()),
        ]
    );
}
