use process_tracker::config::Allowlist;
use process_tracker::policy::{contains_chars, digest_matches, is_allowed, joined_args, HashCache, Verdict};
use process_tracker::platform::ProcessInfo;

fn record(name: &str, path: Option<&str>, args: &[&str]) -> ProcessInfo {
    ProcessInfo {
        pid: 100,
        ppid: 50,
        uid: 501,
        name: name.to_string(),
        path: path.map(|p| p.to_string()),
        args: args.iter().map(|a| a.to_string()).collect(),
    }
}

fn strings(v: &[&str]) -> Vec<String> {
    v.iter().map(|s| s.to_string()).collect()
}

#[test]
fn name_rule_wins_over_hash_rule() {
    let mut al = Allowlist::new();
    al.names = strings(&["evil.bin"]);
    al.hashes = strings(&["00ff"]);
    let info = record("evil.bin", Some("/tmp/evil.bin"), &[]);
    let mut cache = HashCache::new();
    assert_eq!(is_allowed(&info, &al, &cache), Verdict::Allowed);
    cache.insert("/tmp/evil.bin".to_string(), "abcd".to_string());
    assert_eq!(is_allowed(&info, &al, &cache), Verdict::Allowed);
}

#[test]
fn each_tier_allows() {
    let info = record("tool", Some("/opt/tool"), &["--mode", "fast"]);
    let cache = HashCache::new();
    let mut al = Allowlist::new();
    al.paths = strings(&["/opt/tool"]);
    assert_eq!(is_allowed(&info, &al, &cache), Verdict::Allowed);
    let mut al = Allowlist::new();
    al.uids.insert(501);
    assert_eq!(is_allowed(&info, &al, &cache), Verdict::Allowed);
    let mut al = Allowlist::new();
    al.ppids.insert(50);
    assert_eq!(is_allowed(&info, &al, &cache), Verdict::Allowed);
    let mut al = Allowlist::new();
    al.args = strings(&["nothing", "mode fa"]);
    assert_eq!(is_allowed(&info, &al, &cache), Verdict::Allowed);
}

#[test]
fn no_tier_matches_denied() {
    let info = record("tool", None, &["--mode"]);
    let mut al = Allowlist::new();
    al.names = strings(&["other"]);
    al.paths = strings(&["/opt/tool"]);
    al.uids.insert(0);
    al.ppids.insert(1);
    al.args = strings(&["--fast"]);
    al.hashes = strings(&["abcd"]);
    assert_eq!(is_allowed(&info, &al, &HashCache::new()), Verdict::Denied);
}

#[test]
fn digest_tier_asks_then_decides() {
    let info = record("tool", Some("/opt/tool"), &[]);
    let mut al = Allowlist::new();
    al.hashes = strings(&["abcd"]);
    let mut cache = HashCache::new();
    assert_eq!(is_allowed(&info, &al, &cache), Verdict::NeedsDigest);
    cache.insert("/opt/tool".to_string(), "ABCD".to_string());
    assert_eq!(cache.get(&"/opt/tool".to_string()), Some("ABCD".to_string()));
    assert_eq!(is_allowed(&info, &al, &cache), Verdict::Allowed);
}

#[test]
fn unreadable_file_digest_never_matches() {
    let info = record("tool", Some("/opt/tool"), &[]);
    let mut al = Allowlist::new();
    al.hashes = strings(&[""]);
    let mut cache = HashCache::new();
    cache.insert("/opt/tool".to_string(), String::new());
    assert_eq!(is_allowed(&info, &al, &cache), Verdict::Denied);
}

#[test]
fn digest_tier_skipped_without_path() {
    let info = record("tool", None, &[]);
    let mut al = Allowlist::new();
    al.hashes = strings(&["abcd"]);
    assert_eq!(is_allowed(&info, &al, &HashCache::new()), Verdict::Denied);
}

#[test]
fn arg_rule_needs_arguments() {
    let info = record("tool", None, &[]);
    let mut al = Allowlist::new();
    al.args = strings(&[""]);
    assert_eq!(is_allowed(&info, &al, &HashCache::new()), Verdict::Denied);
}

#[test]
fn hash_cache_later_entry_stands() {
    let mut cache = HashCache::new();
    assert_eq!(cache.get(&"/a".to_string()), None);
    cache.insert("/a".to_string(), "1".to_string());
    cache.insert("/b".to_string(), "2".to_string());
    cache.insert("/a".to_string(), "3".to_string());
    assert_eq!(cache.get(&"/a".to_string()), Some("3".to_string()));
    assert_eq!(cache.get(&"/b".to_string()), Some("2".to_string()));
}

#[test]
fn joined_arguments_and_substrings() {
    let joined = joined_args(&strings(&["a", "bc", "d"]));
    assert_eq!(joined.iter().collect::<String>(), "a bc d");
    assert!(joined_args(&Vec::new()).is_empty());
    let hay: Vec<char> = "a bc d".chars().collect();
    assert!(contains_chars(&hay, &"c d".chars().collect()));
    assert!(contains_chars(&hay, &Vec::new()));
    assert!(!contains_chars(&hay, &"bd".chars().collect()));
    assert!(!contains_chars(&hay, &"a bc d e".chars().collect()));
}

#[test]
fn digest_comparison_uses_folded_form() {
    let mut al = Allowlist::new();
    al.hashes = strings(&["abcd"]);
    assert!(digest_matches(&al, "ABCD", "abcd"));
    assert!(!digest_matches(&al, "ABCD", "ABCD"));
    assert!(!digest_matches(&al, "", "abcd"));
    assert!(!digest_matches(&al, "beef", "beef"));
}
