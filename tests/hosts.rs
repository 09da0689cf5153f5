use hostm::edit::{
    add_new_domain, create_record, remove_domain, search_domain, update_existing_domain,
    update_record,
};
use hostm::error::{check_hosts_file, write_error, HostsError};
use hostm::matcher::is_mapping_for;

const STAMP: &str = "2024-01-01 00:00:00";

#[test]
fn delete_example_removes_first_line() {
    let out = remove_domain("1.2.3.4 a.com\n5.6.7.8 b.com\n", "a.com");
    assert_eq!(out, Ok("5.6.7.8 b.com\n".to_string()));
}

#[test]
fn update_example_replaces_address() {
    let out = update_existing_domain("1.2.3.4 a.com\n", "a.com", "9.9.9.9").unwrap();
    assert!(out.starts_with("9.9.9.9 a.com"));
    assert!(!out.contains("1.2.3.4"));
    assert!(out.ends_with('\n'));
    assert_eq!(out.lines().count(), 1);
    assert!(out.contains("# updated by hostm "));
}

#[test]
fn update_with_stamp_is_exact() {
    let out = update_record("1.2.3.4 a.com\n", "a.com", "9.9.9.9", STAMP);
    assert_eq!(
        out,
        Ok("9.9.9.9 a.com # updated by hostm 2024-01-01 00:00:00\n".to_string())
    );
}

#[test]
fn search_example_reports_line_one() {
    let hits = search_domain("1.2.3.4 a.com\n", "a.com");
    assert_eq!(hits, vec![(1, "1.2.3.4 a.com".to_string())]);
    assert!(search_domain("1.2.3.4 a.com\n", "zzz").is_empty());
}

#[test]
fn delete_absent_domain_fails() {
    let doc = "1.2.3.4 a.com\n# comment\n";
    assert_eq!(remove_domain(doc, "c.com"), Err(HostsError::DomainNotFound));
    assert_eq!(remove_domain("", "c.com"), Err(HostsError::DomainNotFound));
}

#[test]
fn create_then_search_finds_one_new_line() {
    let doc = "127.0.0.1 localhost\n1.2.3.4 a.com\n";
    let before = search_domain(doc, "new.org");
    assert!(before.is_empty());
    let out = create_record(doc, "new.org", "10.0.0.1", STAMP).unwrap();
    assert_eq!(
        out,
        "127.0.0.1 localhost\n1.2.3.4 a.com\n10.0.0.1 new.org # created by hostm 2024-01-01 00:00:00\n"
    );
    let after = search_domain(&out, "new.org");
    assert_eq!(after.len(), 1);
    assert_eq!(after[0].0, 3);
    assert!(after[0].1.contains("new.org"));
    assert!(after[0].1.contains("10.0.0.1"));
}

#[test]
fn create_with_clock_appends_line() {
    let out = add_new_domain("1.2.3.4 a.com", "b.com", "5.6.7.8").unwrap();
    assert!(out.starts_with("1.2.3.4 a.com\n5.6.7.8 b.com # created by hostm "));
    assert!(!out.ends_with('\n'));
}

#[test]
fn update_single_record_keeps_other_lines() {
    let doc = "# hosts\n1.2.3.4 a.com # old\n5.6.7.8 b.com\n";
    let out = update_record(doc, "a.com", "9.9.9.9", STAMP).unwrap();
    let lines: Vec<&str> = out.lines().collect();
    assert_eq!(lines.len(), 3);
    assert_eq!(lines[0], "# hosts");
    assert!(lines[1].starts_with("9.9.9.9 "));
    assert_eq!(lines[2], "5.6.7.8 b.com");
    assert_eq!(out.lines().filter(|l| is_mapping_for(l, "a.com")).count(), 1);
}

#[test]
fn update_changes_only_first_match() {
    let doc = "1.1.1.1 a.com\n2.2.2.2 a.com\n";
    let out = update_record(doc, "a.com", "9.9.9.9", STAMP).unwrap();
    assert_eq!(
        out,
        "9.9.9.9 a.com # updated by hostm 2024-01-01 00:00:00\n2.2.2.2 a.com\n"
    );
}

#[test]
fn update_absent_domain_fails() {
    assert_eq!(
        update_record("1.2.3.4 a.com\n", "b.com", "9.9.9.9", STAMP),
        Err(HostsError::DomainNotFound)
    );
}

#[test]
fn create_twice_fails() {
    let out = create_record("", "a.com", "1.2.3.4", STAMP).unwrap();
    assert_eq!(out, "1.2.3.4 a.com # created by hostm 2024-01-01 00:00:00");
    assert_eq!(
        create_record(&out, "a.com", "5.6.7.8", STAMP),
        Err(HostsError::DomainAlreadyExists)
    );
}

#[test]
fn delete_twice_fails() {
    let doc = "1.2.3.4 a.com\n5.6.7.8 b.com\n";
    let out = remove_domain(doc, "a.com").unwrap();
    assert_eq!(remove_domain(&out, "a.com"), Err(HostsError::DomainNotFound));
}

#[test]
fn delete_removes_every_match() {
    let doc = "1.1.1.1 a.com\n# keep\n2.2.2.2 a.com x\n3.3.3.3 b.com";
    assert_eq!(remove_domain(doc, "a.com"), Ok("# keep\n3.3.3.3 b.com".to_string()));
}

#[test]
fn delete_everything_keeps_newline() {
    assert_eq!(remove_domain("1.2.3.4 a.com\n", "a.com"), Ok("\n".to_string()));
    assert_eq!(remove_domain("1.2.3.4 a.com", "a.com"), Ok("".to_string()));
}

#[test]
fn trailing_newline_is_kept_or_absent() {
    let with = "1.2.3.4 a.com\n";
    let without = "1.2.3.4 a.com";
    let c1 = create_record(with, "b.com", "5.6.7.8", STAMP).unwrap();
    let c2 = create_record(without, "b.com", "5.6.7.8", STAMP).unwrap();
    assert!(c1.ends_with('\n') && !c1.ends_with("\n\n"));
    assert!(!c2.ends_with('\n'));
    let u1 = update_record(with, "a.com", "5.6.7.8", STAMP).unwrap();
    let u2 = update_record(without, "a.com", "5.6.7.8", STAMP).unwrap();
    assert!(u1.ends_with('\n') && !u1.ends_with("\n\n"));
    assert!(!u2.ends_with('\n'));
    let d1 = remove_domain("0.0.0.0 x.com\n1.2.3.4 a.com\n", "a.com").unwrap();
    let d2 = remove_domain("0.0.0.0 x.com\n1.2.3.4 a.com", "a.com").unwrap();
    assert_eq!(d1, "0.0.0.0 x.com\n");
    assert_eq!(d2, "0.0.0.0 x.com");
}

#[test]
fn carriage_returns_are_kept() {
    let doc = "1.2.3.4 a.com\r\n5.6.7.8 b.com\r\n";
    assert_eq!(remove_domain(doc, "a.com"), Ok("5.6.7.8 b.com\r\n".to_string()));
}

#[test]
fn matcher_needs_address_prefix() {
    assert!(is_mapping_for("1.2.3.4 a.com", "a.com"));
    assert!(is_mapping_for("10.20.30.40\ta.com # note", "a.com"));
    assert!(!is_mapping_for("# 1.2.3.4 a.com", "a.com"));
    assert!(!is_mapping_for("1.2.3 a.com", "a.com"));
    assert!(!is_mapping_for("1.2.3.4a.com", "a.com"));
    assert!(!is_mapping_for("1..2.3.4 a.com", "a.com"));
    assert!(!is_mapping_for("", "a.com"));
}

#[test]
fn matcher_uses_word_boundaries() {
    assert!(is_mapping_for("1.2.3.4 example.com", "example"));
    assert!(!is_mapping_for("1.2.3.4 myexample.com", "example"));
    assert!(!is_mapping_for("1.2.3.4 a.com_x", "a.com"));
    assert!(is_mapping_for("1.2.3.4 x a.com", "a.com"));
}

#[test]
fn matcher_treats_domain_as_literal() {
    assert!(!is_mapping_for("1.2.3.4 abcom", "a.com"));
    assert!(!is_mapping_for("1.2.3.4 aa.com", "a+.com"));
}

#[test]
fn matcher_counts_unicode_letters_as_word() {
    assert!(!is_mapping_for("1.2.3.4 éa.com", "a.com"));
    assert!(is_mapping_for("1.2.3.4 é.a.com", "a.com"));
}

#[test]
fn search_uses_plain_substring() {
    let doc = "# a.com notes\n1.2.3.4 a.com\nxa.comx\n";
    let hits = search_domain(doc, "a.com");
    assert_eq!(
        hits,
        vec![
            (1, "# a.com notes".to_string()),
            (2, "1.2.3.4 a.com".to_string()),
            (3, "xa.comx".to_string())
        ]
    );
}

#[test]
fn file_guard_classifies_paths() {
    assert_eq!(check_hosts_file(false, false), Err(HostsError::NotFound));
    assert_eq!(check_hosts_file(true, false), Err(HostsError::NotAFile));
    assert_eq!(check_hosts_file(true, true), Ok(()));
}

#[test]
fn write_errors_are_classified() {
    assert_eq!(write_error(true), HostsError::PermissionDenied);
    assert_eq!(write_error(false), HostsError::WriteFailed);
}
