use process_tracker::export::{
    csv_escape, csv_header, csv_line, decimal, json_escape, json_line, json_opt_pct, json_opt_str,
    json_opt_u32, opt_pct, opt_str, opt_u32, pct, AnomalyEvent, AuditEvent, SampleEvent,
    SystemOverloadEvent, UnknownEvent,
};

fn sample(path: Option<&str>, cpu: u64) -> SampleEvent {
    SampleEvent {
        ts: 1700000000,
        pid: 42,
        uid: 501,
        ppid: 1,
        name: "worker".to_string(),
        path: path.map(|p| p.to_string()),
        cpu_pct: cpu,
        ram_pct: 1_000,
    }
}

#[test]
fn sample_event_csv_rounds_and_blanks_path() {
    let line = csv_line(&sample(None, 12_345).record());
    assert_eq!(line, "1700000000,sample,42,501,1,worker,,12.35,1.00,\n");
}

#[test]
fn sample_event_json_null_path() {
    let line = json_line(&sample(None, 12_345).record());
    assert_eq!(
        line,
        "{\"ts\":1700000000,\"kind\":\"sample\",\"pid\":42,\"uid\":501,\"ppid\":1,\"name\":\"worker\",\"path\":null,\"cpu\":12.35,\"ram\":1.00,\"reason\":null}\n"
    );
    assert!(line.contains("\"path\":null,\"cpu\":12.35"));
}

#[test]
fn unknown_event_rows() {
    let e = UnknownEvent { ts: 5, pid: 9, uid: 0, ppid: 1, name: "a,b".to_string(), path: Some("/x \"y\"".to_string()) };
    assert_eq!(csv_line(&e.record()), "5,unknown,9,0,1,\"a,b\",\"/x \"\"y\"\"\",,,\n");
    assert_eq!(
        json_line(&e.record()),
        "{\"ts\":5,\"kind\":\"unknown\",\"pid\":9,\"uid\":0,\"ppid\":1,\"name\":\"a,b\",\"path\":\"/x \\\"y\\\"\",\"cpu\":null,\"ram\":null,\"reason\":null}\n"
    );
}

#[test]
fn anomaly_event_rows() {
    let e = AnomalyEvent {
        ts: 7,
        pid: 3,
        name: "hog".to_string(),
        path: Some("/bin/hog".to_string()),
        cpu_pct: 95_004,
        ram_pct: 5,
        reason: "spike+sustained".to_string(),
    };
    assert_eq!(csv_line(&e.record()), "7,anomaly,3,,,hog,/bin/hog,95.00,0.01,spike+sustained\n");
    assert_eq!(
        json_line(&e.record()),
        "{\"ts\":7,\"kind\":\"anomaly\",\"pid\":3,\"uid\":null,\"ppid\":null,\"name\":\"hog\",\"path\":\"/bin/hog\",\"cpu\":95.00,\"ram\":0.01,\"reason\":\"spike+sustained\"}\n"
    );
}

#[test]
fn daemon_event_rows() {
    let o = SystemOverloadEvent {
        ts: 1,
        pid: 2,
        name: "kernel_task".to_string(),
        path: None,
        cpu_pct: 100_000,
        ram_pct: 0,
        reason: "sustained".to_string(),
    };
    assert_eq!(csv_line(&o.record()), "1,system_overload,2,,,kernel_task,,100.00,0.00,sustained\n");
    let a = AuditEvent { ts: 1, pid: 2, uid: 3, ppid: 4, name: "n".to_string(), path: None, action: "killed".to_string() };
    assert_eq!(
        json_line(&a.record()),
        "{\"ts\":1,\"kind\":\"audit\",\"pid\":2,\"uid\":3,\"ppid\":4,\"name\":\"n\",\"path\":null,\"cpu\":null,\"ram\":null,\"reason\":\"killed\"}\n"
    );
}

#[test]
fn percent_text_rounds_half_up() {
    assert_eq!(pct(0), "0.00");
    assert_eq!(pct(4), "0.00");
    assert_eq!(pct(5), "0.01");
    assert_eq!(pct(12_344), "12.34");
    assert_eq!(pct(12_345), "12.35");
    assert_eq!(pct(99_995), "100.00");
    assert_eq!(pct(u64::MAX), "18446744073709551.62");
}

#[test]
fn optional_fields() {
    assert_eq!(opt_u32(Some(0)), "0");
    assert_eq!(opt_u32(Some(u32::MAX)), "4294967295");
    assert_eq!(opt_u32(None), "");
    assert_eq!(opt_pct(None), "");
    assert_eq!(opt_pct(Some(1_500)), "1.50");
    assert_eq!(opt_str(&None), "");
    assert_eq!(opt_str(&Some("x".to_string())), "x");
    assert_eq!(decimal(1234567890123), "1234567890123");
    assert_eq!(json_opt_u32("uid", None), "\"uid\":null,");
    assert_eq!(json_opt_u32("uid", Some(7)), "\"uid\":7,");
    assert_eq!(json_opt_pct("cpu", Some(2_000)), "\"cpu\":2.00,");
    assert_eq!(json_opt_str("path", &Some("a\tb".to_string())), "\"path\":\"a\\tb\",");
    assert_eq!(json_opt_str("path", &None), "\"path\":null,");
}

#[test]
fn escaping() {
    assert_eq!(csv_escape("plain"), "plain");
    assert_eq!(csv_escape("a\nb"), "\"a\nb\"");
    assert_eq!(csv_escape("say \"hi\""), "\"say \"\"hi\"\"\"");
    assert_eq!(csv_escape(""), "");
    assert_eq!(json_escape("a\\b\"c\nd\re\tf"), "a\\\\b\\\"c\\nd\\re\\tf");
    assert_eq!(json_escape("é"), "é");
}

#[test]
fn header_line() {
    assert_eq!(csv_header(), "ts,kind,pid,uid,ppid,name,path,cpu,ram,reason\n");
}
