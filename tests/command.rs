use site_blocker::command::{
    handle_command, validate_site, AddResponse, Command, CommandResponse, RemoveResponse,
};
use site_blocker::hosts::HostsFile;

fn names(v: &[&str]) -> Vec<String> {
    v.iter().map(|s| s.to_string()).collect()
}

#[test]
fn list_reports_blocked_sites() {
    let mut hosts = HostsFile::new(String::new(), "127.0.0.1 a.com\n# c\n::1 b.com\n");
    match handle_command(Command::List, &mut hosts) {
        CommandResponse::List(v) => assert_eq!(v, names(&["a.com", "b.com"])),
        _ => panic!("expected a list"),
    }
}

#[test]
fn add_reports_each_site() {
    let mut hosts = HostsFile::new(String::new(), "127.0.0.1 a.com\n");
    let r = handle_command(
        Command::Add { site: names(&["a.com", "b.com", "", "bad site", "b.com"]) },
        &mut hosts,
    );
    match r {
        CommandResponse::Add(v) => {
            assert_eq!(v.len(), 3);
            assert!(matches!(&v[0], AddResponse::AlreadyExists(s) if s == "a.com"));
            assert!(matches!(&v[1], AddResponse::Added(s) if s == "b.com"));
            assert!(matches!(&v[2], AddResponse::AlreadyExists(s) if s == "b.com"));
        }
        _ => panic!("expected add replies"),
    }
    assert_eq!(hosts.blocked_sites(), names(&["a.com", "b.com"]));
}

#[test]
fn remove_reports_not_found() {
    let text = "127.0.0.1 a.com\nother\n";
    let mut hosts = HostsFile::new(String::new(), text);
    let r = handle_command(Command::Remove { site: names(&["x.com", "a.com", "a.com"]) }, &mut hosts);
    match r {
        CommandResponse::Remove(v) => {
            assert_eq!(v.len(), 3);
            assert!(matches!(&v[0], RemoveResponse::NotFound(s) if s == "x.com"));
            assert!(matches!(&v[1], RemoveResponse::Removed(s) if s == "a.com"));
            assert!(matches!(&v[2], RemoveResponse::NotFound(s) if s == "a.com"));
        }
        _ => panic!("expected remove replies"),
    }
    assert_eq!(hosts.serialize(), "other\n");
}

#[test]
fn remove_unknown_keeps_text() {
    let text = "# c\n127.0.0.1 a.com\n";
    let mut hosts = HostsFile::new(String::new(), text);
    let before = hosts.serialize();
    let r = handle_command(Command::Remove { site: names(&["never.com"]) }, &mut hosts);
    assert!(matches!(r, CommandResponse::Remove(v) if matches!(&v[0], RemoveResponse::NotFound(_))));
    assert_eq!(hosts.serialize(), before);
}

#[test]
fn validate_site_rules() {
    assert!(validate_site("example.com"));
    assert!(!validate_site(""));
    assert!(!validate_site("a b"));
    assert!(!validate_site("a\tb"));
    assert!(!validate_site("exämple.com"));
}
