use syncenv::store::{
    initial_content, line_assigns, load_content, load_lines_except, make_assignment_line,
    rc_file_name, set_content, unset_content,
};

const HEADER: &str = "# Warning: this file is managed by syncenv #\n";

#[test]
fn rc_file_name_is_fixed() {
    assert_eq!(rc_file_name(), ".syncenvrc");
}

#[test]
fn creation_yields_exactly_the_header() {
    // a load against a non-existent path creates exactly the header comment
    let created = load_content(None);
    assert_eq!(created.as_str(), HEADER);
    assert_eq!(initial_content().as_str(), HEADER);
}

#[test]
fn second_load_returns_the_same_content() {
    let created = load_content(None);
    let again = load_content(Some(created.clone()));
    assert_eq!(again, created);
}

#[test]
fn make_assignment_line_exact() {
    let line = make_assignment_line("PATH", "/usr/bin");
    assert_eq!(line.as_str(), "export PATH=/usr/bin");
}

#[test]
fn line_assigns_matches_only_the_exact_name() {
    assert!(line_assigns("export FOO=1", "FOO"));
    assert!(!line_assigns("export FOOBAR=2", "FOO"));
    assert!(!line_assigns("export FOO=1", "FOOBAR"));
    assert!(!line_assigns("export FOO=1", "FO"));
    assert!(!line_assigns("# Warning: this file is managed by syncenv #", "FOO"));
}

#[test]
fn load_lines_except_removes_only_the_named_line() {
    let content = "# header\nexport A=1\nexport B=2\n";
    let lines = load_lines_except(content, "A");
    assert_eq!(lines, vec!["# header".to_string(), "export B=2".to_string()]);
}

#[test]
fn load_lines_except_absent_name_keeps_all_lines() {
    let content = "# header\nexport A=1\n";
    let lines = load_lines_except(content, "C");
    assert_eq!(lines, vec!["# header".to_string(), "export A=1".to_string()]);
}

#[test]
fn set_inserts_a_new_assignment_sorted() {
    let content = load_content(None);
    let after = set_content(content.as_str(), "EDITOR", "vim");
    assert_eq!(
        after.as_str(),
        "# Warning: this file is managed by syncenv #\nexport EDITOR=vim\n"
    );
}

#[test]
fn set_twice_leaves_one_line_with_the_second_value() {
    // round trip: set(name, v1) then set(name, v2) leaves exactly one line
    let content = load_content(None);
    let first = set_content(content.as_str(), "EDITOR", "vim");
    let second = set_content(first.as_str(), "EDITOR", "emacs");
    assert_eq!(
        second.as_str(),
        "# Warning: this file is managed by syncenv #\nexport EDITOR=emacs\n"
    );
    let matching: Vec<&str> = second
        .lines()
        .filter(|l| l.starts_with("export EDITOR="))
        .collect();
    assert_eq!(matching, vec!["export EDITOR=emacs"]);
}

#[test]
fn set_sequence_sorts_assignment_lines() {
    // alphabetical invariant: lines appear in ascending order by full text
    let content = load_content(None);
    let a = set_content(content.as_str(), "ZED", "3");
    let b = set_content(a.as_str(), "ALPHA", "1");
    let c = set_content(b.as_str(), "MID", "2");
    assert_eq!(
        c.as_str(),
        "# Warning: this file is managed by syncenv #\nexport ALPHA=1\nexport MID=2\nexport ZED=3\n"
    );
    let lines: Vec<&str> = c.lines().collect();
    let mut sorted = lines.clone();
    sorted.sort();
    assert_eq!(lines, sorted);
}

#[test]
fn prefix_name_does_not_capture_longer_name() {
    // FOO then FOOBAR must end as two distinct lines
    let content = load_content(None);
    let a = set_content(content.as_str(), "FOO", "1");
    let b = set_content(a.as_str(), "FOOBAR", "2");
    assert_eq!(
        b.as_str(),
        "# Warning: this file is managed by syncenv #\nexport FOO=1\nexport FOOBAR=2\n"
    );
}

#[test]
fn longer_name_does_not_capture_prefix_name() {
    let content = load_content(None);
    let a = set_content(content.as_str(), "FOOBAR", "2");
    let b = set_content(a.as_str(), "FOO", "1");
    assert_eq!(
        b.as_str(),
        "# Warning: this file is managed by syncenv #\nexport FOO=1\nexport FOOBAR=2\n"
    );
}

#[test]
fn unset_removes_the_line() {
    let content = "# h\nexport A=1\nexport B=2\n";
    let after = unset_content(content, "A");
    assert_eq!(after.as_str(), "# h\nexport B=2\n");
}

#[test]
fn unset_keeps_remaining_order() {
    let content = "export Z=26\n# note\nexport A=1\n";
    let after = unset_content(content, "A");
    assert_eq!(after.as_str(), "export Z=26\n# note\n");
}

#[test]
fn unset_twice_equals_unset_once() {
    // idempotence: the second unset is a no-op
    let content = "# h\nexport A=1\nexport B=2\n";
    let once = unset_content(content, "B");
    let twice = unset_content(once.as_str(), "B");
    assert_eq!(twice, once);
}

#[test]
fn unset_absent_name_is_not_an_error() {
    let content = "# h\nexport A=1\n";
    let after = unset_content(content, "NOPE");
    assert_eq!(after.as_str(), content);
}

#[test]
fn set_on_empty_content_writes_one_line() {
    let after = set_content("", "A", "1");
    assert_eq!(after.as_str(), "export A=1\n");
}

#[test]
fn set_tolerates_content_without_trailing_newline() {
    let after = set_content("export B=2", "A", "1");
    assert_eq!(after.as_str(), "export A=1\nexport B=2\n");
}

#[test]
fn unset_removes_every_duplicate_line() {
    // a hand-edited file may hold the name twice; removal catches all
    let content = "export A=1\nexport B=2\nexport A=3\n";
    let after = unset_content(content, "A");
    assert_eq!(after.as_str(), "export B=2\n");
}

#[test]
fn set_collapses_duplicate_lines_to_one() {
    let content = "export A=1\nexport A=3\n";
    let after = set_content(content, "A", "9");
    assert_eq!(after.as_str(), "export A=9\n");
}

#[test]
fn set_value_may_contain_spaces_and_equals() {
    let after = set_content("", "MSG", "a=b c");
    assert_eq!(after.as_str(), "export MSG=a=b c\n");
    let lines = load_lines_except("export MSG=a=b c\n", "MSG");
    assert!(lines.is_empty());
}

#[test]
fn set_empty_value_keeps_the_delimiter() {
    let after = set_content("", "A", "");
    assert_eq!(after.as_str(), "export A=\n");
}
