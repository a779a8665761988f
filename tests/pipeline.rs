use khoj::ignore_rules::{init, is_ignored, IgnoreRules};
use khoj::model::{Model, Timestamp};
use khoj::pipeline::{format_for_extension, format_for_path, plan_file, should_index, xml_text, Format};

fn chars(s: &str) -> Vec<char> {
    s.chars().collect()
}

#[test]
fn formats_by_extension_ignoring_ascii_case() {
    assert_eq!(format_for_extension("txt"), Some(Format::Text));
    assert_eq!(format_for_extension("RS"), Some(Format::Text));
    assert_eq!(format_for_extension("Md"), Some(Format::Text));
    assert_eq!(format_for_extension("xml"), Some(Format::Xml));
    assert_eq!(format_for_extension("XHTML"), Some(Format::Xml));
    assert_eq!(format_for_extension("pdf"), Some(Format::Pdf));
    assert_eq!(format_for_extension("exe"), None);
    assert_eq!(format_for_extension(""), None);
    assert_eq!(format_for_extension("txtx"), None);
}

#[test]
fn formats_by_path() {
    assert_eq!(format_for_path("/home/u/notes.txt"), Some(Format::Text));
    assert_eq!(format_for_path("/home/u/book.PDF"), Some(Format::Pdf));
    assert_eq!(format_for_path("dir.xml/file"), None);
    assert_eq!(format_for_path("/home/u/Makefile"), None);
    assert_eq!(format_for_path("/home/u/archive.tar.gz"), None);
}

#[test]
fn extension_follows_the_last_dot_of_the_file_name() {
    assert_eq!(format_for_path("/p/a.b.md"), Some(Format::Text));
    assert_eq!(format_for_path("/p/.md"), None);
    assert_eq!(format_for_path("/p/.hidden.md"), Some(Format::Text));
    assert_eq!(format_for_path("/p/notes."), None);
    assert_eq!(format_for_path("/p/x.md/"), Some(Format::Text));
}

#[test]
fn candidates_skip_ignored_hidden_and_unsupported_files() {
    assert!(should_index("/p/src/main.rs", false));
    assert!(!should_index("/p/src/main.rs", true));
    assert!(!should_index("/p/.env.toml", false));
    assert!(!should_index("/p/.bashrc", false));
    assert!(!should_index("/p/image.png", false));
    assert!(should_index("/p/.config/settings.toml", false));
}

#[test]
fn ignore_rules_fail_open_before_init() {
    let rules = IgnoreRules::new();
    assert!(!rules.is_active());
    assert!(!is_ignored(&rules, "/root/a.log", false));
}

#[test]
fn ignore_rules_match_patterns_and_first_init_wins() {
    let mut rules = IgnoreRules::new();
    init(&mut rules, "/root", &chars("# comment\n*.log\r\nbuild/\n!keep.log\n"));
    assert!(rules.is_active());
    assert!(is_ignored(&rules, "/root/a.log", false));
    assert!(!is_ignored(&rules, "/root/keep.log", false));
    assert!(!is_ignored(&rules, "/root/a.txt", false));
    assert!(is_ignored(&rules, "/root/build", true));
    init(&mut rules, "/root", &chars("*.txt\n"));
    assert!(!is_ignored(&rules, "/root/a.txt", false));
    assert!(is_ignored(&rules, "/root/a.log", false));
}

#[test]
fn ignore_rules_without_patterns_ignore_nothing() {
    let mut rules = IgnoreRules::new();
    init(&mut rules, "/root", &[]);
    assert!(!is_ignored(&rules, "/root/a.log", false));
}

#[test]
fn xml_text_joins_character_data() {
    let t = xml_text(b"<?xml version=\"1.0\"?><doc><p>Hello</p><p>world &amp; more</p></doc>");
    assert_eq!(t, Some("Hello world & more ".to_string()));
    assert_eq!(xml_text(b"<a></a>"), Some(String::new()));
}

#[test]
fn malformed_xml_has_no_text() {
    assert_eq!(xml_text(b"<a><b></a>"), None);
    assert_eq!(xml_text(b""), None);
}

#[test]
fn ignore_lines_lose_trailing_white_space() {
    let mut rules = IgnoreRules::new();
    init(&mut rules, "/root", &chars("*.tmp   \n   \n\t\n#*.md\n"));
    assert!(is_ignored(&rules, "/root/a.tmp", false));
    assert!(!is_ignored(&rules, "/root/a.md", false));
    assert!(!is_ignored(&rules, "/root/a.txt", false));
}

#[test]
fn ignore_root_may_start_with_dot_slash() {
    let mut rules = IgnoreRules::new();
    init(&mut rules, "./proj", &chars("/out\n"));
    assert!(is_ignored(&rules, "proj/out", true));
    assert!(!is_ignored(&rules, "proj/src/out.rs", false));
}

#[test]
fn comment_only_ignore_file_ignores_nothing() {
    let mut rules = IgnoreRules::new();
    init(&mut rules, "/root", &chars("# nothing here\n\n"));
    assert!(!is_ignored(&rules, "/root/a.log", false));
    assert!(!is_ignored(&rules, "/root/build", true));
}

#[test]
fn plan_reads_only_stale_candidates() {
    let t = |secs| Timestamp { secs, nanos: 0 };
    let mut m = Model::new();
    let doc = "/p/a.md".to_string();
    let xml = "/p/b.xml".to_string();
    assert_eq!(plan_file(&m, &doc, false, Some(t(3))), Some(Format::Text));
    assert_eq!(plan_file(&m, &xml, false, Some(t(3))), Some(Format::Xml));
    assert_eq!(plan_file(&m, &doc, true, Some(t(3))), None);
    assert_eq!(plan_file(&m, &doc, false, None), None);
    assert_eq!(plan_file(&m, &"/p/c.bin".to_string(), false, Some(t(3))), None);
    m.add_document(doc.clone(), t(3), &chars("text"));
    assert_eq!(plan_file(&m, &doc, false, Some(t(3))), None);
    assert_eq!(plan_file(&m, &doc, false, Some(t(2))), None);
    assert_eq!(plan_file(&m, &doc, false, Some(t(4))), Some(Format::Text));
}
