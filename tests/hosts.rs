use site_blocker::hosts::HostsFile;
use site_blocker::line::HostsLine;
use site_blocker::text::split_crlf_lines;

fn names(v: &[&str]) -> Vec<String> {
    v.iter().map(|s| s.to_string()).collect()
}

fn doc(text: &str) -> HostsFile {
    HostsFile::new(String::from("/etc/hosts"), text)
}

#[test]
fn test_hosts_line_from_string() {
    assert_eq!(HostsLine::from(""), HostsLine::Empty);
    assert_eq!(
        HostsLine::from("# This is a comment"),
        HostsLine::Comment("# This is a comment".to_string())
    );
    assert_eq!(
        HostsLine::from("127.0.0.1 example.com"),
        HostsLine::BlockedSite("example.com".to_string())
    );
    assert_eq!(
        HostsLine::from("::1 example.com"),
        HostsLine::BlockedSite("example.com".to_string())
    );
    assert_eq!(
        HostsLine::from("127.0.0.1 localhost"),
        HostsLine::Other("127.0.0.1 localhost".to_string())
    );
    assert_eq!(
        HostsLine::from("::1 localhost"),
        HostsLine::Other("::1 localhost".to_string())
    );
    assert_eq!(
        HostsLine::from("This is not a valid line"),
        HostsLine::Other("This is not a valid line".to_string())
    );
}

#[test]
fn test_string_from_hosts_line() {
    assert_eq!(String::from(&HostsLine::Empty), "".to_string());
    assert_eq!(
        String::from(&HostsLine::Comment("# This is a comment".to_string())),
        "# This is a comment"
    );
    assert_eq!(
        String::from(&HostsLine::BlockedSite("example.com".to_string())),
        "127.0.0.1\texample.com"
    );
    assert_eq!(
        String::from(&HostsLine::Other("This is not a valid line".to_string())),
        "This is not a valid line"
    );
}

#[test]
fn test_add_site() {
    let mut hosts = HostsFile::from_lines(String::new(), Vec::new());
    hosts.add(vec!["example.com".to_string()]);
    assert_eq!(hosts.lines().len(), 1);
    assert_eq!(
        hosts.lines()[0],
        HostsLine::BlockedSite("example.com".to_string())
    );
}

#[test]
fn test_remove_site() {
    let mut hosts = HostsFile::from_lines(
        String::new(),
        vec![HostsLine::BlockedSite("example.com".to_string())],
    );
    hosts.delete(vec!["example.com".to_string()]);
    assert_eq!(hosts.lines().len(), 0);
}

#[test]
fn test_read_and_write() {
    let hosts = HostsFile::from_lines(
        String::from("hosts"),
        vec![
            HostsLine::Comment("# This is a comment".to_string()),
            HostsLine::Empty,
            HostsLine::BlockedSite("example.com".to_string()),
            HostsLine::Other("This is not a valid line".to_string()),
        ],
    );
    let written = hosts.serialize();
    let loaded_hosts = HostsFile::new(hosts.path().to_string(), &written);
    assert_eq!(hosts.lines(), loaded_hosts.lines());
}

#[test]
fn classify_blank_and_indented_lines() {
    assert_eq!(HostsLine::from("   \t "), HostsLine::Empty);
    assert_eq!(
        HostsLine::from("  # indented comment"),
        HostsLine::Comment("  # indented comment".to_string())
    );
    assert_eq!(
        HostsLine::from("#127.0.0.1 example.com"),
        HostsLine::Comment("#127.0.0.1 example.com".to_string())
    );
}

#[test]
fn classify_entry_shapes() {
    assert_eq!(
        HostsLine::from("  127.0.0.1\t\texample.com  "),
        HostsLine::BlockedSite("example.com".to_string())
    );
    assert_eq!(
        HostsLine::from("127.0.0.1 a.com b.com"),
        HostsLine::Other("127.0.0.1 a.com b.com".to_string())
    );
    assert_eq!(
        HostsLine::from("127.0.0.1"),
        HostsLine::Other("127.0.0.1".to_string())
    );
    assert_eq!(
        HostsLine::from("192.168.0.1 router"),
        HostsLine::Other("192.168.0.1 router".to_string())
    );
    assert_eq!(
        HostsLine::from("127.0.0.10 example.com"),
        HostsLine::Other("127.0.0.10 example.com".to_string())
    );
}

#[test]
fn localhost_entries_are_not_blocked_sites() {
    let hosts = doc("127.0.0.1 localhost\n::1 localhost\n");
    assert!(hosts.blocked_sites().is_empty());
}

#[test]
fn loopback_entry_is_a_blocked_site() {
    assert_eq!(
        HostsLine::parse("127.0.0.1 example.com"),
        HostsLine::BlockedSite("example.com".to_string())
    );
}

#[test]
fn invalid_line_is_written_verbatim() {
    let line = HostsLine::parse("not a valid line");
    assert_eq!(line, HostsLine::Other("not a valid line".to_string()));
    assert_eq!(line.render(), "not a valid line");
    assert_eq!(doc("not a valid line\n").serialize(), "not a valid line\n");
}

#[test]
fn render_then_classify_keeps_lines() {
    for raw in ["# c", "", "127.0.0.1 a.com", "::1\tb.org", "x y z", "  "] {
        let line = HostsLine::parse(raw);
        assert_eq!(HostsLine::parse(&line.render()), line);
    }
}

#[test]
fn add_is_idempotent() {
    let mut once = doc("# c\n127.0.0.1 a.com\n");
    once.add(names(&["b.com", "a.com", "c.com"]));
    assert_eq!(once.blocked_sites(), names(&["a.com", "b.com", "c.com"]));
    let mut twice = doc("# c\n127.0.0.1 a.com\n");
    twice.add(names(&["b.com", "a.com", "c.com"]));
    twice.add(names(&["b.com", "a.com", "c.com"]));
    assert_eq!(twice.lines(), once.lines());
}

#[test]
fn adding_twice_in_one_call_gives_one_line() {
    let mut hosts = doc("");
    hosts.add(names(&["example.com", "example.com"]));
    assert_eq!(hosts.lines().len(), 1);
    assert_eq!(hosts.blocked_sites(), names(&["example.com"]));
}

#[test]
fn remove_keeps_other_sites_in_order() {
    let mut hosts = doc("127.0.0.1 a.com\n# x\n::1 b.com\n127.0.0.1 c.com\n");
    hosts.delete(names(&["b.com"]));
    assert_eq!(hosts.blocked_sites(), names(&["a.com", "c.com"]));
    assert_eq!(hosts.serialize(), "127.0.0.1\ta.com\n# x\n127.0.0.1\tc.com\n");
}

#[test]
fn remove_deletes_only_the_first_line() {
    let mut hosts = doc("127.0.0.1 a.com\n::1 a.com\n");
    hosts.delete(names(&["a.com"]));
    assert_eq!(hosts.blocked_sites(), names(&["a.com"]));
    assert_eq!(hosts.lines()[0], HostsLine::BlockedSite("a.com".to_string()));
    assert_eq!(hosts.lines().len(), 1);
}

#[test]
fn removing_unknown_site_changes_nothing() {
    let text = "# c\n127.0.0.1 a.com\nodd line\n";
    let mut hosts = doc(text);
    let before = hosts.serialize();
    hosts.delete(names(&["never.com"]));
    assert_eq!(hosts.serialize(), before);
}

#[test]
fn set_collapses_duplicates() {
    let mut hosts = doc("# c\n127.0.0.1 a.com\n127.0.0.1 b.com\n::1 localhost\n");
    hosts.set(names(&["c.com", "b.com", "c.com", "d.com"]));
    assert_eq!(hosts.blocked_sites(), names(&["b.com", "c.com", "d.com"]));
    assert_eq!(
        hosts.serialize(),
        "# c\n127.0.0.1\tb.com\n::1 localhost\n127.0.0.1\tc.com\n127.0.0.1\td.com\n"
    );
}

#[test]
fn set_to_empty_unblocks_everything() {
    let mut hosts = doc("127.0.0.1 a.com\n127.0.0.1 a.com\n# keep\n");
    hosts.set(Vec::new());
    assert!(hosts.blocked_sites().is_empty());
    assert_eq!(hosts.serialize(), "# keep\n");
}

#[test]
fn end_to_end_add_write_reload() {
    let text = "# comment\n\n127.0.0.1\tlocalhost\n::1\tlocalhost\nNot a valid line\n";
    let mut hosts = doc(text);
    assert!(hosts.blocked_sites().is_empty());
    hosts.add(names(&["example.com"]));
    let written = hosts.serialize();
    let reloaded = doc(&written);
    assert_eq!(reloaded.blocked_sites(), names(&["example.com"]));
    assert_eq!(
        reloaded.lines(),
        &vec![
            HostsLine::Comment("# comment".to_string()),
            HostsLine::Empty,
            HostsLine::Other("127.0.0.1\tlocalhost".to_string()),
            HostsLine::Other("::1\tlocalhost".to_string()),
            HostsLine::Other("Not a valid line".to_string()),
            HostsLine::BlockedSite("example.com".to_string()),
        ]
    );
    assert_eq!(written, format!("{}127.0.0.1\texample.com\n", text));
}

#[test]
fn lines_split_on_newlines_only() {
    let hosts = doc("a b c\r\n\n# x");
    assert_eq!(
        hosts.lines(),
        &vec![
            HostsLine::Other("a b c\r".to_string()),
            HostsLine::Empty,
            HostsLine::Comment("# x".to_string()),
        ]
    );
    assert_eq!(hosts.serialize(), "a b c\r\n\n# x\n");
    assert!(doc("").lines().is_empty());
    assert_eq!(doc("\n").lines(), &vec![HostsLine::Empty]);
}

#[test]
fn path_is_kept() {
    let mut hosts = doc("");
    hosts.add(names(&["a.com"]));
    assert_eq!(hosts.path(), "/etc/hosts");
}

#[test]
fn crlf_lines_match_str_lines() {
    for text in ["a\r\nb\r\n", "a\r\nb\r", "\r\n", "a\n\nb", "", "x\r\r\n"] {
        let expected: Vec<String> = text.lines().map(str::to_string).collect();
        assert_eq!(split_crlf_lines(text), expected);
    }
}

#[test]
fn from_impls_classify_and_render() {
    let line = HostsLine::from("  ::1   blocked.org ");
    assert_eq!(line, HostsLine::BlockedSite("blocked.org".to_string()));
    assert_eq!(String::from(&line), "127.0.0.1\tblocked.org");
}
