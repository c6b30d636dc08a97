use process_tracker::platform::macos::{is_system_process, parse_proc_args};
use process_tracker::platform::{linux, windows, ProcessInfo};

fn block(argc: u32, body: &[u8]) -> Vec<u8> {
    let mut b = argc.to_le_bytes().to_vec();
    b.extend_from_slice(body);
    b
}

fn at(path: Option<&str>) -> ProcessInfo {
    ProcessInfo { pid: 1, ppid: 0, uid: 0, name: "p".to_string(), path: path.map(|p| p.to_string()), args: Vec::new() }
}

#[test]
fn arg_block_truncated_yields_recovered_strings() {
    let b = block(5, b"/bin/prog\0\0\0prog\0-a\0value\0");
    assert_eq!(parse_proc_args(&b), vec!["prog".to_string(), "-a".to_string(), "value".to_string()]);
}

#[test]
fn arg_block_keeps_empty_argument() {
    let b = block(2, b"/p\0a\0\0\xff\0");
    assert_eq!(parse_proc_args(&b), vec!["a".to_string(), String::new()]);
    let b = block(3, b"/p\0\0a\0\0b\0ENV=1\0");
    assert_eq!(parse_proc_args(&b), vec!["a".to_string(), String::new(), "b".to_string()]);
}

#[test]
fn arg_block_unterminated_last_argument() {
    let b = block(3, b"/p\0a\0tail");
    assert_eq!(parse_proc_args(&b), vec!["a".to_string(), "tail".to_string()]);
}

#[test]
fn arg_block_stops_at_declared_count() {
    let b = block(2, b"/bin/prog\0\0prog\0x\0PATH=/bin\0\0\0");
    assert_eq!(parse_proc_args(&b), vec!["prog".to_string(), "x".to_string()]);
}

#[test]
fn arg_block_drops_invalid_text() {
    let b = block(3, b"/p\0a\0\xff\xfe\0\xc3\xa9t\xc3\xa9\0");
    assert_eq!(parse_proc_args(&b), vec!["a".to_string(), "été".to_string()]);
}

#[test]
fn arg_block_too_short_or_empty() {
    assert!(parse_proc_args(&[1, 0, 0]).is_empty());
    assert!(parse_proc_args(&block(0, b"/p\0a\0")).is_empty());
    assert!(parse_proc_args(&block(4, b"/p")).is_empty());
}

#[test]
fn arg_block_reads_count_little_endian() {
    let mut body = b"/p\0".to_vec();
    for _ in 0..300 {
        body.extend_from_slice(b"z\0");
    }
    assert_eq!(parse_proc_args(&block(258, &body)).len(), 258);
}

#[test]
fn system_paths() {
    assert!(is_system_process(&at(Some("/usr/bin/ls"))));
    assert!(is_system_process(&at(Some("/System/Library/CoreServices/Finder.app"))));
    assert!(is_system_process(&at(Some("/Library/Apple/usr/bin/x"))));
    assert!(is_system_process(&at(Some("/sbin/launchd"))));
    assert!(!is_system_process(&at(Some("/Applications/Tool.app"))));
    assert!(!is_system_process(&at(Some("/usr/local/bin/x"))));
    assert!(!is_system_process(&at(Some("/usr/bin"))));
    assert!(!is_system_process(&at(None)));
}

#[test]
fn unsupported_targets_report_errors() {
    assert_eq!(linux::list_processes().err(), Some("linux not implemented".to_string()));
    assert_eq!(linux::sample_process(1).err(), Some("linux not implemented".to_string()));
    assert_eq!(linux::num_cpus().err(), Some("linux not implemented".to_string()));
    assert_eq!(linux::total_mem_bytes().err(), Some("linux not implemented".to_string()));
    assert_eq!(linux::kill_process(1).err(), Some("linux not implemented".to_string()));
    assert_eq!(windows::list_processes().err(), Some("windows not implemented".to_string()));
    assert_eq!(windows::kill_process(1).err(), Some("windows not implemented".to_string()));
}
