use site_blocker::cli::{
    editor_sites, editor_template, input_sites, validate_sites, Action, Command, SiteError,
    SiteOptions, EDITOR_PROMPT,
};

fn names(v: &[&str]) -> Vec<String> {
    v.iter().map(|s| s.to_string()).collect()
}

fn options() -> SiteOptions {
    SiteOptions { sites: Vec::new(), files: Vec::new() }
}

#[test]
fn actions_from_commands() {
    assert!(matches!(Command::Get.construct_action(names(&["x"])), Action::Get));
    assert!(matches!(Command::Add(options()).construct_action(Vec::new()), Action::Noop));
    assert!(matches!(
        Command::Add(options()).construct_action(names(&["a.com"])),
        Action::Add(v) if v == names(&["a.com"])
    ));
    assert!(matches!(
        Command::Delete(options()).construct_action(names(&["a.com"])),
        Action::Delete(v) if v == names(&["a.com"])
    ));
    assert!(matches!(Command::Edit.construct_action(Vec::new()), Action::Noop));
    assert!(matches!(
        Command::Edit.construct_action(names(&["b.com"])),
        Action::Replace(v) if v == names(&["b.com"])
    ));
}

#[test]
fn collect_sites_reads_file_lines() {
    let opts = SiteOptions { sites: names(&["a.com"]), files: names(&["f1", "f2"]) };
    let got = opts.collect_sites(&names(&["b.com\nc.com\n", "d.com"]));
    assert_eq!(got, names(&["a.com", "b.com", "c.com", "d.com"]));
}

#[test]
fn validate_accepts_good_sites() {
    let sites = names(&["example.com", "a-b.c0"]);
    assert_eq!(validate_sites(sites.clone()).unwrap(), sites);
}

#[test]
fn validate_reports_empty() {
    assert!(matches!(validate_sites(names(&["a.com", ""])), Err(SiteError::Empty)));
}

#[test]
fn validate_reports_too_long() {
    let long = "a".repeat(256);
    assert!(matches!(
        validate_sites(vec![long.clone()]),
        Err(SiteError::TooLong(s)) if s == long
    ));
    assert!(validate_sites(vec!["a".repeat(255)]).is_ok());
}

#[test]
fn validate_reports_invalid_chars_of_first_bad_site() {
    assert!(matches!(
        validate_sites(names(&["ok.com", "bad_site", ""])),
        Err(SiteError::InvalidChars(s)) if s == "bad_site"
    ));
}

#[test]
fn validate_actions() {
    assert!(matches!(Action::Get.validate(), Ok(Action::Get)));
    assert!(matches!(Action::Noop.validate(), Ok(Action::Noop)));
    assert!(matches!(
        Action::Replace(names(&["a.com"])).validate(),
        Ok(Action::Replace(v)) if v == names(&["a.com"])
    ));
    assert!(matches!(Action::Add(names(&["a b"])).validate(), Err(SiteError::InvalidChars(_))));
    assert!(matches!(Action::Delete(names(&[""])).validate(), Err(SiteError::Empty)));
}

#[test]
fn stdin_words_are_sites() {
    assert_eq!(input_sites("a.com b.com\n  c.com\t\n"), names(&["a.com", "b.com", "c.com"]));
    assert!(input_sites(" \n ").is_empty());
}

#[test]
fn editor_round_trip() {
    let text = editor_template(&names(&["a.com", "b.com"]));
    assert_eq!(text, format!("a.com\nb.com\n\n{}", EDITOR_PROMPT));
    assert_eq!(editor_sites(&text), names(&["a.com", "b.com"]));
    assert_eq!(editor_template(&Vec::new()), format!("\n\n{}", EDITOR_PROMPT));
}

#[test]
fn editor_drops_carriage_returns() {
    assert_eq!(editor_sites("a.com\r\n# x\r\n\r\nb.com\r\n"), names(&["a.com", "b.com"]));
    assert_eq!(editor_sites("a.com\r\nb.com"), names(&["a.com", "b.com"]));
    assert!(validate_sites(editor_sites("a.com\r\n")).is_ok());
}

#[test]
fn collect_sites_drops_carriage_returns() {
    let opts = SiteOptions { sites: Vec::new(), files: names(&["f"]) };
    assert_eq!(opts.collect_sites(&names(&["b.com\r\nc.com\r\n"])), names(&["b.com", "c.com"]));
}

#[test]
fn pick_sites_falls_back_to_input() {
    assert_eq!(SiteOptions::pick_sites(names(&["a.com"]), None), Some(names(&["a.com"])));
    assert_eq!(SiteOptions::pick_sites(names(&["a.com"]), Some("b.com")), Some(names(&["a.com"])));
    assert_eq!(SiteOptions::pick_sites(Vec::new(), None), None);
    assert_eq!(
        SiteOptions::pick_sites(Vec::new(), Some("b.com c.com\n")),
        Some(names(&["b.com", "c.com"]))
    );
}
