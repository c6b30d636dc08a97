use std::collections::HashSet;

use process_tracker::config::{parse_allowlist, Allowlist, AllowlistError};

fn errline(r: Result<Allowlist, AllowlistError>) -> String {
    match r {
        Ok(_) => "ok".to_string(),
        Err(e) => e.message(),
    }
}

#[test]
fn allowlist_reads_every_key() {
    let text = "# trusted\n\nname: Finder\n  PATH : /usr/bin/true  \nHash: ABCdef\nuid: 0\nppid: +1\narg: --daemon\narg: --daemon\r\n";
    let al = parse_allowlist(text).ok().unwrap();
    assert_eq!(al.names, vec!["Finder".to_string()]);
    assert_eq!(al.paths, vec!["/usr/bin/true".to_string()]);
    assert_eq!(al.hashes, vec!["abcdef".to_string()]);
    assert_eq!(al.uids, HashSet::from([0]));
    assert_eq!(al.ppids, HashSet::from([1]));
    assert_eq!(al.args, vec!["--daemon".to_string(), "--daemon".to_string()]);
    assert!(!al.is_empty());
}

#[test]
fn allowlist_value_keeps_later_colons() {
    let al = parse_allowlist("arg: a:b").ok().unwrap();
    assert_eq!(al.args, vec!["a:b".to_string()]);
}

#[test]
fn allowlist_malformed_line() {
    assert_eq!(errline(parse_allowlist("name: a\njust text\n")), "invalid allowlist line 2: just text");
}

#[test]
fn allowlist_empty_value() {
    assert_eq!(errline(parse_allowlist("\n\nname:   \n")), "empty value on line 3");
}

#[test]
fn allowlist_invalid_uid_and_ppid() {
    assert_eq!(errline(parse_allowlist("uid: -1")), "invalid uid on line 1");
    assert_eq!(errline(parse_allowlist("uid: 4294967296")), "invalid uid on line 1");
    assert_eq!(errline(parse_allowlist("name: x\nppid: 12a")), "invalid ppid on line 2");
    let al = parse_allowlist("uid: 4294967295").ok().unwrap();
    assert_eq!(al.uids, HashSet::from([u32::MAX]));
}

#[test]
fn allowlist_unknown_key() {
    assert_eq!(errline(parse_allowlist("# c\nColor: red")), "unknown key on line 2: color");
}

#[test]
fn allowlist_empty_is_refused() {
    assert_eq!(errline(parse_allowlist("")), "allowlist is empty");
    assert_eq!(errline(parse_allowlist("# only a comment\n   \n")), "allowlist is empty");
    assert!(matches!(parse_allowlist("\n"), Err(AllowlistError::Empty)));
}

#[test]
fn allowlist_error_variants() {
    assert!(matches!(parse_allowlist("x"), Err(AllowlistError::Malformed { line: 1, .. })));
    assert!(matches!(parse_allowlist("name:"), Err(AllowlistError::EmptyValue { line: 1 })));
    assert!(matches!(parse_allowlist("uid: x"), Err(AllowlistError::InvalidUid { line: 1 })));
    assert!(matches!(parse_allowlist("ppid: x"), Err(AllowlistError::InvalidPpid { line: 1 })));
    assert!(matches!(parse_allowlist("k: v"), Err(AllowlistError::UnknownKey { line: 1, .. })));
}

#[test]
fn allowlist_is_empty_checks_every_list() {
    let mut al = Allowlist::new();
    assert!(al.is_empty());
    al.ppids.insert(3);
    assert!(!al.is_empty());
}

#[test]
fn allowlist_set_rules_kept_once() {
    let al = parse_allowlist("name: a\nname: a\nuid: 7\nuid: 07\nhash: AB\nhash: ab\nppid: 1\nppid: 1\npath: /p\npath: /p\n").ok().unwrap();
    assert_eq!(al.names, vec!["a".to_string()]);
    assert_eq!(al.uids, HashSet::from([7]));
    assert_eq!(al.hashes, vec!["ab".to_string()]);
    assert_eq!(al.ppids, HashSet::from([1]));
    assert_eq!(al.paths, vec!["/p".to_string()]);
}

#[test]
fn add_rule_dispatches_on_folded_key() {
    let mut al = Allowlist::new();
    assert!(al.add_rule(1, "name", "Finder", "finder").is_ok());
    assert!(al.add_rule(2, "hash", "ABCD", "abcd").is_ok());
    assert!(al.add_rule(3, "uid", "+12", "+12").is_ok());
    assert!(al.add_rule(4, "ppid", "9", "9").is_ok());
    assert!(al.add_rule(5, "arg", "-x", "-x").is_ok());
    assert!(al.add_rule(6, "path", "/bin/a", "/bin/a").is_ok());
    assert_eq!(al.names, vec!["Finder".to_string()]);
    assert_eq!(al.hashes, vec!["abcd".to_string()]);
    assert_eq!(al.uids, HashSet::from([12]));
    assert_eq!(al.ppids, HashSet::from([9]));
    assert_eq!(al.args, vec!["-x".to_string()]);
    assert_eq!(al.paths, vec!["/bin/a".to_string()]);
    assert!(matches!(al.add_rule(7, "NAME", "x", "x"), Err(AllowlistError::UnknownKey { line: 7, .. })));
    assert!(matches!(al.add_rule(8, "uid", "x", "x"), Err(AllowlistError::InvalidUid { line: 8 })));
    assert!(matches!(al.add_rule(9, "ppid", "", ""), Err(AllowlistError::EmptyValue { line: 9 })));
}
