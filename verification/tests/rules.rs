use harmony_rs::rule::{control_line_host, new_rules, pick_host, Filter, FilterControl};
use harmony_rs::rules::{is_valid_domain, Rules};
use harmony_rs::target::Target;

fn labels(parts: &[&str]) -> Vec<Vec<char>> {
    parts.iter().map(|p| p.chars().collect()).collect()
}

#[test]
fn test_rule() {
    let rules = Rules::new();
    assert_eq!(rules.len(), 0);

    // the rules that a file `{"com": {"google": null}}` holds
    let mut com = Rules::new();
    com.set_child("google", None);
    let mut rules = Rules::new();
    rules.set_child("com", Some(com));
    assert_eq!(rules.contain("www.google.com"), true);
    assert_eq!(rules.contain("www.baidu.com"), false);

    let mut rules = Rules::new();
    rules.add("www.google.com");
    assert_eq!(rules.len(), 1);
    assert_eq!(rules.contain("www.google.com"), true);

    let mut rules = Rules::new();
    rules.add("www.google.com.");
    assert_eq!(rules.len(), 1);
    rules.add("www.google.com.invalid");
    assert_eq!(rules.len(), 2);

    let mut rules = Rules::new();
    rules.add("www.google.com");
    assert_eq!(rules.contain("www.google.com"), true);
    assert_eq!(rules.contain("www.www.google.com"), true);
    assert_eq!(rules.contain("www.baidu.com"), false);
    assert_eq!(rules.contain("google.com"), false);
    assert_eq!(rules.contain("www.google.com.cn"), false);

    rules.add("com");
    assert_eq!(rules.contain("com"), true);
    assert_eq!(rules.contain("cn"), false);
    assert_eq!(rules.len(), 1);
}

#[test]
fn added_domain_matches_every_subdomain() {
    let mut rules = Rules::new();
    rules.add("example.com");
    assert!(rules.contain("www.example.com"));
    assert!(rules.contain("a.b.example.com"));
    assert!(rules.contain("example.com"));
    assert!(rules.contain("example.com."));
    assert!(rules.contain(".example.com"));
    assert!(!rules.contain("com"));
    assert!(!rules.contain("notexample.com"));
    assert!(!rules.contain("example.org"));
}

#[test]
fn adding_only_changes_names_below() {
    let mut rules = Rules::new();
    rules.add("a.example.com");
    rules.add("b.example.com");
    assert!(rules.contain("a.example.com"));
    assert!(rules.contain("x.b.example.com"));
    assert!(!rules.contain("example.com"));
    assert!(!rules.contain("c.example.com"));
    rules.add("example.com");
    assert!(rules.contain("example.com"));
    assert!(rules.contain("c.example.com"));
    assert!(rules.contain("a.example.com"));
    assert_eq!(rules.len(), 1);
}

#[test]
fn nothing_is_added_below_a_terminal_marker() {
    let mut rules = Rules::new();
    rules.add("example.com");
    rules.add("deep.www.example.com");
    assert!(rules.contain("other.example.com"));
    assert!(rules.contain("deep.www.example.com"));
}

#[test]
fn cn_is_never_matched() {
    let mut rules = Rules::new();
    rules.add("baidu.com");
    rules.add("cn");
    rules.add("example.cn");
    assert!(rules.contain("www.baidu.com"));
    assert!(!rules.contain("www.baidu.com.cn"));
    assert!(!rules.contain("cn"));
    assert!(!rules.contain("example.cn"));
    assert!(!rules.contain("www.example.cn."));
    assert!(rules.contain("www.example.cn.com") == false);
}

#[test]
fn invalid_domains_are_ignored() {
    let bad = [
        "",
        ".",
        "com.",
        "-a.com",
        "a-.com",
        "a..com",
        "a_b.com",
        "example.c",
        "example.c0m",
        "example.123",
        "exa mple.com",
        "example.com.-",
        "example.com..",
        " example.com",
        "example.com ",
        "\u{e9}.com",
    ];
    for d in bad {
        let mut rules = Rules::new();
        rules.add(d);
        assert_eq!(rules.len(), if d == "com." { 1 } else { 0 }, "{:?}", d);
    }
    let long_label = format!("{}.com", "a".repeat(64));
    let mut rules = Rules::new();
    rules.add(&long_label);
    assert_eq!(rules.len(), 0);
    let ok_label = format!("{}.com", "a".repeat(63));
    rules.add(&ok_label);
    assert_eq!(rules.len(), 1);
    assert!(rules.contain(&ok_label));
}

#[test]
fn domains_over_255_characters_are_ignored() {
    let label = "a".repeat(63);
    let name_255 = format!("{}.{}.{}.{}.com", label, label, label, "b".repeat(59));
    assert_eq!(name_255.len(), 255);
    let mut rules = Rules::new();
    rules.add(&name_255);
    assert_eq!(rules.len(), 1);
    assert!(rules.contain(&name_255));
    let name_256 = format!("{}.{}.{}.{}.com", label, label, label, "b".repeat(60));
    assert_eq!(name_256.len(), 256);
    let mut rules = Rules::new();
    rules.add(&name_256);
    assert_eq!(rules.len(), 0);
    // trailing dots do not count
    let mut rules = Rules::new();
    rules.add(&format!("{}.", name_255));
    assert_eq!(rules.len(), 1);
}

#[test]
fn one_trailing_dot_is_dropped() {
    let mut rules = Rules::new();
    rules.add("example.com.");
    assert_eq!(rules.len(), 1);
    assert!(rules.contain("www.example.com"));
    assert!(rules.contain("www.example.com."));
    let mut same = Rules::new();
    same.add("example.com");
    for q in ["example.com", "www.example.com", "com", "example.org", "a.b.example.com."] {
        assert_eq!(rules.contain(q), same.contain(q), "{}", q);
    }
}

#[test]
fn a_second_trailing_dot_is_an_empty_label() {
    let mut rules = Rules::new();
    rules.add("example.com..");
    assert_eq!(rules.len(), 0);
    assert!(!rules.contain("www.example.com"));
    rules.add("example.org...");
    assert_eq!(rules.len(), 0);
    rules.add("example.com");
    assert!(rules.contain("www.example.com."));
    assert!(!rules.contain("www.example.com.."));
    assert!(!rules.contain("www.example.com..."));
}

#[test]
fn whitespace_makes_a_domain_invalid() {
    for d in [" example.com", "example.com ", "  example.com.\n", "\texample.org", "example.com\r"] {
        let mut rules = Rules::new();
        rules.add(d);
        assert_eq!(rules.len(), 0, "{:?}", d);
        assert!(!rules.contain("www.example.com"), "{:?}", d);
    }
}

#[test]
fn labels_are_validated() {
    assert!(is_valid_domain(&labels(&["www", "example", "com"])));
    assert!(is_valid_domain(&labels(&["com"])));
    assert!(is_valid_domain(&labels(&["a-b", "x1", "Org"])));
    assert!(!is_valid_domain(&labels(&[])));
    assert!(!is_valid_domain(&labels(&["c"])));
    assert!(!is_valid_domain(&labels(&["", "com"])));
    assert!(!is_valid_domain(&labels(&["www", "c-m"])));
    assert!(!is_valid_domain(&labels(&["-www", "com"])));
    assert!(!is_valid_domain(&labels(&["www-", "com"])));
    assert!(!is_valid_domain(&labels(&["w.w", "com"])));
}

#[test]
fn set_child_replaces_what_stood_there() {
    let mut rules = Rules::new();
    rules.add("www.example.com");
    assert!(!rules.contain("mail.example.com"));
    rules.set_child("com", None);
    assert!(rules.contain("mail.example.com"));
    assert_eq!(rules.len(), 1);
    rules.set_child("org", Some(Rules::new()));
    assert_eq!(rules.len(), 2);
    assert!(!rules.contain("example.org"));
}

#[test]
fn filter_serves_messages_in_order() {
    let mut filter = new_rules();
    assert_eq!(filter.handle(FilterControl::Query("www.example.com".to_string())), Some(false));
    assert_eq!(filter.handle(FilterControl::Insert("example.com".to_string())), None);
    assert_eq!(filter.handle(FilterControl::Query("www.example.com".to_string())), Some(true));
    assert_eq!(filter.handle(FilterControl::Insert("not a domain".to_string())), None);
    assert_eq!(filter.handle(FilterControl::Query("not a domain".to_string())), Some(false));
}

#[test]
fn filter_checks_targets_by_host() {
    let mut rules = Rules::new();
    rules.add("example.com");
    let mut filter = Filter::from_rules(rules);
    assert!(filter.check_target(&Target::Hostname("www.example.com:443".to_string())));
    assert!(filter.check_target(&Target::Hostname("www.example.com".to_string())));
    assert!(!filter.check_target(&Target::Hostname("other.net:443".to_string())));
    assert!(!filter.check_target(&Target::IPv4([1, 2, 3, 4], 80)));
    assert!(!filter.check_target(&Target::IPv6([0; 16], 80)));
    filter.insert("other.net");
    assert!(filter.check_domain("x.other.net"));
    assert!(!filter.check_domain("www.baidu.com.cn"));
}

#[test]
fn control_lines_are_reduced_to_hosts() {
    assert_eq!(control_line_host("https://added.example/xyz".to_string()), "added.example");
    assert_eq!(control_line_host("http://Sub.Example.com:8080/a?b#c".to_string()), "sub.example.com");
    assert_eq!(control_line_host("example.com".to_string()), "example.com");
    assert_eq!(control_line_host("ftp://example.com/".to_string()), "ftp://example.com/");
    assert_eq!(control_line_host("https://127.0.0.1/".to_string()), "https://127.0.0.1/");
    assert_eq!(control_line_host("https://".to_string()), "https://");
    assert_eq!(control_line_host("".to_string()), "");
}

#[test]
fn control_pipe_insertion() {
    let mut filter = new_rules();
    let host = control_line_host("https://added.example/xyz".to_string());
    filter.handle(FilterControl::Insert(host));
    assert_eq!(filter.handle(FilterControl::Query("x.added.example".to_string())), Some(true));
}

#[test]
fn pick_host_prefers_the_parsed_domain_of_a_url() {
    assert_eq!(pick_host("https://a.b/c".to_string(), Some("a.b".to_string())), "a.b");
    assert_eq!(pick_host("http://a.b/c".to_string(), None), "http://a.b/c");
    assert_eq!(pick_host("a.b".to_string(), Some("x.y".to_string())), "a.b");
    assert_eq!(pick_host("HTTPS://a.b".to_string(), Some("a.b".to_string())), "HTTPS://a.b");
}

#[test]
fn top_labels_can_be_walked() {
    let mut rules = Rules::new();
    rules.add("www.example.com");
    rules.add("example.org");
    rules.add("net");
    assert_eq!(rules.len(), 3);
    let mut seen: Vec<(String, Option<usize>)> = Vec::new();
    for i in 0..rules.len() {
        seen.push((rules.label_at(i), rules.child_at(i).map(|r| r.len())));
    }
    seen.sort();
    assert_eq!(
        seen,
        vec![("com".to_string(), Some(1)), ("net".to_string(), None), ("org".to_string(), Some(1))]
    );
    let com = rules.child_at(0).unwrap();
    assert_eq!(com.label_at(0), "example");
    assert!(com.contain("www.example"));
}

#[test]
fn adding_twice_is_adding_once() {
    let mut once = Rules::new();
    once.add("www.example.com");
    let mut twice = Rules::new();
    twice.add("www.example.com");
    twice.add("www.example.com");
    assert_eq!(once.len(), twice.len());
    for q in ["www.example.com", "a.www.example.com", "example.com", "com", "x.example.com"] {
        assert_eq!(once.contain(q), twice.contain(q), "{}", q);
    }
    assert_eq!(twice.child_at(0).unwrap().child_at(0).unwrap().len(), 1);
}
