//! Rendering of exported events as CSV rows and JSON lines.
//!
//! Every event becomes an `ExportRecord` with the ten columns of the CSV
//! header; a column that the event kind does not have is empty in CSV and
//! `null` in JSON. Percentages are thousandths of a percent and are written
//! with two decimals, rounded half up.
use vstd::prelude::*;
use vstd::string::StringExecFns;

use crate::text::{chars_of, push_char};

verus! {

/// Where events are exported to, if anywhere.
pub struct ExportConfig {
    pub csv_path: Option<String>,
    pub jsonl_path: Option<String>,
}

/// One exported row.
pub struct ExportRecord {
    pub ts: u64,
    pub kind: String,
    pub pid: u32,
    pub uid: Option<u32>,
    pub ppid: Option<u32>,
    pub name: String,
    pub path: Option<String>,
    pub cpu: Option<u64>,
    pub ram: Option<u64>,
    pub reason: Option<String>,
}

/// A process that no allowlist rule trusts.
pub struct UnknownEvent {
    pub ts: u64,
    pub pid: u32,
    pub uid: u32,
    pub ppid: u32,
    pub name: String,
    pub path: Option<String>,
}

/// A spike or sustained overload.
pub struct AnomalyEvent {
    pub ts: u64,
    pub pid: u32,
    pub name: String,
    pub path: Option<String>,
    pub cpu_pct: u64,
    pub ram_pct: u64,
    pub reason: String,
}

/// A raw periodic reading.
pub struct SampleEvent {
    pub ts: u64,
    pub pid: u32,
    pub uid: u32,
    pub ppid: u32,
    pub name: String,
    pub path: Option<String>,
    pub cpu_pct: u64,
    pub ram_pct: u64,
}

/// An anomaly of a system-owned process, seen in daemon mode.
pub struct SystemOverloadEvent {
    pub ts: u64,
    pub pid: u32,
    pub name: String,
    pub path: Option<String>,
    pub cpu_pct: u64,
    pub ram_pct: u64,
    pub reason: String,
}

/// What daemon mode did about an untrusted process: `logged` or `killed`.
pub struct AuditEvent {
    pub ts: u64,
    pub pid: u32,
    pub uid: u32,
    pub ppid: u32,
    pub name: String,
    pub path: Option<String>,
    pub action: String,
}

pub open spec fn digit_char(d: nat) -> char {
    ((48 + d) as u8) as char
}

/// Decimal digits of `n`, without leading zeros.
pub open spec fn dec(n: nat) -> Seq<char>
    decreases n,
{
    if n < 10 {
        seq![digit_char(n)]
    } else {
        dec(n / 10) + seq![digit_char(n % 10)]
    }
}

/// A percentage in thousandths, with two decimals, rounded half up.
pub open spec fn pct_text(m: nat) -> Seq<char> {
    let h = (m + 5) / 10;
    dec(h / 100) + seq!['.', digit_char((h % 100) / 10), digit_char(h % 10)]
}

pub open spec fn opt_u32_spec(v: Option<u32>) -> Seq<char> {
    match v {
        Some(n) => dec(n as nat),
        None => seq![],
    }
}

pub open spec fn opt_pct_spec(v: Option<u64>) -> Seq<char> {
    match v {
        Some(m) => pct_text(m as nat),
        None => seq![],
    }
}

pub open spec fn opt_str_spec(v: Option<String>) -> Seq<char> {
    match v {
        Some(s) => s@,
        None => seq![],
    }
}

pub open spec fn needs_quotes(s: Seq<char>) -> bool {
    s.contains(',') || s.contains('"') || s.contains('\n')
}

/// `s` with each double quote doubled.
pub open spec fn double_quotes(s: Seq<char>) -> Seq<char>
    decreases s.len(),
{
    if s.len() == 0 {
        seq![]
    } else {
        double_quotes(s.drop_last()) + if s.last() == '"' {
            seq!['"', '"']
        } else {
            seq![s.last()]
        }
    }
}

/// A CSV field: quoted, with quotes doubled, when it holds a comma, a quote or a newline.
pub open spec fn csv_field(s: Seq<char>) -> Seq<char> {
    if needs_quotes(s) {
        seq!['"'] + double_quotes(s) + seq!['"']
    } else {
        s
    }
}

pub open spec fn json_char(c: char) -> Seq<char> {
    if c == '\\' {
        seq!['\\', '\\']
    } else if c == '"' {
        seq!['\\', '"']
    } else if c == '\n' {
        seq!['\\', 'n']
    } else if c == '\r' {
        seq!['\\', 'r']
    } else if c == '\t' {
        seq!['\\', 't']
    } else {
        seq![c]
    }
}

/// `s` as the inside of a JSON string.
pub open spec fn json_text(s: Seq<char>) -> Seq<char>
    decreases s.len(),
{
    if s.len() == 0 {
        seq![]
    } else {
        json_text(s.drop_last()) + json_char(s.last())
    }
}

pub open spec fn json_opt_u32_spec(key: Seq<char>, v: Option<u32>) -> Seq<char> {
    match v {
        Some(n) => seq!['"'] + key + seq!['"', ':'] + dec(n as nat) + seq![','],
        None => seq!['"'] + key + "\":null,"@,
    }
}

pub open spec fn json_opt_pct_spec(key: Seq<char>, v: Option<u64>) -> Seq<char> {
    match v {
        Some(m) => seq!['"'] + key + seq!['"', ':'] + pct_text(m as nat) + seq![','],
        None => seq!['"'] + key + "\":null,"@,
    }
}

pub open spec fn json_opt_str_spec(key: Seq<char>, v: Option<String>) -> Seq<char> {
    match v {
        Some(s) => seq!['"'] + key + "\":\""@ + json_text(s@) + seq!['"', ','],
        None => seq!['"'] + key + "\":null,"@,
    }
}

pub open spec fn csv_header_spec() -> Seq<char> {
    "ts,kind,pid,uid,ppid,name,path,cpu,ram,reason\n"@
}

/// The CSV row of a record, newline included.
pub open spec fn csv_line_spec(r: &ExportRecord) -> Seq<char> {
    csv_field(dec(r.ts as nat)) + seq![','] + csv_field(r.kind@) + seq![','] + csv_field(
        dec(r.pid as nat),
    ) + seq![','] + csv_field(opt_u32_spec(r.uid)) + seq![','] + csv_field(opt_u32_spec(r.ppid))
        + seq![','] + csv_field(r.name@) + seq![','] + csv_field(opt_str_spec(r.path)) + seq![',']
        + csv_field(opt_pct_spec(r.cpu)) + seq![','] + csv_field(opt_pct_spec(r.ram)) + seq![',']
        + csv_field(opt_str_spec(r.reason)) + seq!['\n']
}

/// The JSON line of a record, newline included.
pub open spec fn json_line_spec(r: &ExportRecord) -> Seq<char> {
    seq!['{'] + "\"ts\":"@ + dec(r.ts as nat) + seq![','] + "\"kind\":\""@ + json_text(r.kind@)
        + seq!['"', ','] + "\"pid\":"@ + dec(r.pid as nat) + seq![','] + json_opt_u32_spec(
        "uid"@,
        r.uid,
    ) + json_opt_u32_spec("ppid"@, r.ppid) + "\"name\":\""@ + json_text(r.name@) + seq!['"', ',']
        + json_opt_str_spec("path"@, r.path) + json_opt_pct_spec("cpu"@, r.cpu) + json_opt_pct_spec(
        "ram"@,
        r.ram,
    ) + json_opt_str_spec("reason"@, r.reason).drop_last() + seq!['}', '\n']
}

fn push_decimal(out: &mut String, n: u64)
    ensures
        final(out)@ == old(out)@ + dec(n as nat),
    decreases n,
{
    if n >= 10 {
        push_decimal(out, n / 10);
    }
    let d: u8 = (n % 10) as u8;
    push_char(out, (48 + d) as char);
}

/// The decimal text of `n`.
pub fn decimal(n: u64) -> (r: String)
    ensures
        r@ == dec(n as nat),
{
    let mut out = String::new();
    push_decimal(&mut out, n);
    out
}

/// The decimal text of `value`, or nothing.
pub fn opt_u32(value: Option<u32>) -> (r: String)
    ensures
        r@ == opt_u32_spec(value),
{
    match value {
        Some(v) => decimal(v as u64),
        None => String::new(),
    }
}

/// A percentage in thousandths with two decimals, rounded half up.
pub fn pct(m: u64) -> (r: String)
    ensures
        r@ == pct_text(m as nat),
{
    let h: u64 = m / 10 + if m % 10 >= 5 {
        1
    } else {
        0
    };
    assert(h == (m + 5) / 10);
    let mut out = decimal(h / 100);
    push_char(&mut out, '.');
    let frac = h % 100;
    push_char(&mut out, (48 + (frac / 10) as u8) as char);
    push_char(&mut out, (48 + (frac % 10) as u8) as char);
    assert(out@ == pct_text(m as nat));
    out
}

/// The percentage text of `value`, or nothing.
pub fn opt_pct(value: Option<u64>) -> (r: String)
    ensures
        r@ == opt_pct_spec(value),
{
    match value {
        Some(m) => pct(m),
        None => String::new(),
    }
}

/// The text of `value`, or nothing.
pub fn opt_str(value: &Option<String>) -> (r: String)
    ensures
        r@ == opt_str_spec(*value),
{
    match value {
        Some(s) => s.clone(),
        None => String::new(),
    }
}

/// `value` as a CSV field.
pub fn csv_escape(value: &str) -> (r: String)
    ensures
        r@ == csv_field(value@),
{
    let cs = chars_of(value);
    let mut quote = false;
    let mut inner = String::new();
    let mut i: usize = 0;
    while i < cs.len()
        invariant
            i <= cs.len(),
            cs@ == value@,
            inner@ == double_quotes(cs@.take(i as int)),
            quote == (cs@.take(i as int).contains(',') || cs@.take(i as int).contains('"')
                || cs@.take(i as int).contains('\n')),
        decreases cs.len() - i,
    {
        let c = cs[i];
        let ghost pre = cs@.take(i as int);
        assert(cs@.take(i + 1).drop_last() == pre);
        assert(cs@.take(i + 1) == pre.push(c));
        if c == ',' || c == '"' || c == '\n' {
            quote = true;
        }
        if c == '"' {
            push_char(&mut inner, '"');
        }
        push_char(&mut inner, c);
        proof {
            assert forall|x: char| pre.push(c).contains(x) <==> (pre.contains(x) || x == c) by {
                if pre.push(c).contains(x) {
                    let k = choose|k: int| 0 <= k < pre.push(c).len() && pre.push(c)[k] == x;
                    if k < pre.len() {
                        assert(pre[k] == x);
                    }
                }
                if pre.contains(x) {
                    let k = choose|k: int| 0 <= k < pre.len() && pre[k] == x;
                    assert(pre.push(c)[k] == x);
                }
                if x == c {
                    assert(pre.push(c)[pre.len() as int] == x);
                }
            }
        }
        i += 1;
    }
    assert(cs@.take(cs.len() as int) == cs@);
    if quote {
        let mut out = String::new();
        push_char(&mut out, '"');
        out.append(inner.as_str());
        push_char(&mut out, '"');
        out
    } else {
        assert(double_quotes(value@) == value@) by {
            lemma_double_quotes_plain(value@);
        }
        inner
    }
}

proof fn lemma_double_quotes_plain(s: Seq<char>)
    requires
        !s.contains('"'),
    ensures
        double_quotes(s) == s,
    decreases s.len(),
{
    if s.len() > 0 {
        assert(!s.drop_last().contains('"')) by {
            if s.drop_last().contains('"') {
                let k = choose|k: int| 0 <= k < s.drop_last().len() && s.drop_last()[k] == '"';
                assert(s[k] == '"');
            }
        }
        lemma_double_quotes_plain(s.drop_last());
        assert(s.last() != '"') by {
            assert(s[s.len() - 1] == s.last());
        }
        assert(s.drop_last() + seq![s.last()] == s);
    }
}

fn push_json_text(out: &mut String, value: &str)
    ensures
        final(out)@ == old(out)@ + json_text(value@),
{
    let cs = chars_of(value);
    let mut i: usize = 0;
    while i < cs.len()
        invariant
            i <= cs.len(),
            cs@ == value@,
            out@ == old(out)@ + json_text(cs@.take(i as int)),
        decreases cs.len() - i,
    {
        let c = cs[i];
        let ghost before = out@;
        assert(cs@.take(i + 1).drop_last() == cs@.take(i as int));
        if c == '\\' {
            push_char(out, '\\');
            push_char(out, '\\');
        } else if c == '"' {
            push_char(out, '\\');
            push_char(out, '"');
        } else if c == '\n' {
            push_char(out, '\\');
            push_char(out, 'n');
        } else if c == '\r' {
            push_char(out, '\\');
            push_char(out, 'r');
        } else if c == '\t' {
            push_char(out, '\\');
            push_char(out, 't');
        } else {
            push_char(out, c);
        }
        assert(out@ == before + json_char(c));
        i += 1;
    }
    assert(cs@.take(cs.len() as int) == cs@);
}

/// `value` as the inside of a JSON string.
pub fn json_escape(value: &str) -> (r: String)
    ensures
        r@ == json_text(value@),
{
    let mut out = String::new();
    push_json_text(&mut out, value);
    out
}

/// A JSON member for an optional string, comma included.
pub fn json_opt_str(key: &str, value: &Option<String>) -> (r: String)
    ensures
        r@ == json_opt_str_spec(key@, *value),
{
    let mut out = String::new();
    push_char(&mut out, '"');
    out.append(key);
    match value {
        Some(v) => {
            out.append("\":\"");
            push_json_text(&mut out, v.as_str());
            push_char(&mut out, '"');
            push_char(&mut out, ',');
        },
        None => {
            out.append("\":null,");
        },
    }
    out
}

/// A JSON member for an optional integer, comma included.
pub fn json_opt_u32(key: &str, value: Option<u32>) -> (r: String)
    ensures
        r@ == json_opt_u32_spec(key@, value),
{
    let mut out = String::new();
    push_char(&mut out, '"');
    out.append(key);
    match value {
        Some(v) => {
            push_char(&mut out, '"');
            push_char(&mut out, ':');
            push_decimal(&mut out, v as u64);
            push_char(&mut out, ',');
        },
        None => {
            out.append("\":null,");
        },
    }
    out
}

/// A JSON member for an optional percentage, comma included.
pub fn json_opt_pct(key: &str, value: Option<u64>) -> (r: String)
    ensures
        r@ == json_opt_pct_spec(key@, value),
{
    let mut out = String::new();
    push_char(&mut out, '"');
    out.append(key);
    match value {
        Some(m) => {
            push_char(&mut out, '"');
            push_char(&mut out, ':');
            let p = pct(m);
            out.append(p.as_str());
            push_char(&mut out, ',');
        },
        None => {
            out.append("\":null,");
        },
    }
    out
}

/// The CSV header line, written once at the top of an empty file.
pub fn csv_header() -> (r: &'static str)
    ensures
        r@ == csv_header_spec(),
{
    "ts,kind,pid,uid,ppid,name,path,cpu,ram,reason\n"
}

/// A copy of an optional string.
fn clone_opt(o: &Option<String>) -> (r: Option<String>)
    ensures
        r == *o,
{
    match o {
        Some(s) => Some(s.clone()),
        None => None,
    }
}

impl UnknownEvent {
    /// The row of an `unknown` event: no percentages and no reason.
    pub fn record(&self) -> (r: ExportRecord)
        ensures
            r.ts == self.ts,
            r.kind@ == "unknown"@,
            r.pid == self.pid,
            r.uid == Some(self.uid),
            r.ppid == Some(self.ppid),
            r.name == self.name,
            r.path == self.path,
            r.cpu is None,
            r.ram is None,
            r.reason is None,
    {
        ExportRecord {
            ts: self.ts,
            kind: "unknown".to_string(),
            pid: self.pid,
            uid: Some(self.uid),
            ppid: Some(self.ppid),
            name: self.name.clone(),
            path: clone_opt(&self.path),
            cpu: None,
            ram: None,
            reason: None,
        }
    }
}

impl AnomalyEvent {
    /// The row of an `anomaly` event: no uid and no ppid.
    pub fn record(&self) -> (r: ExportRecord)
        ensures
            r.ts == self.ts,
            r.kind@ == "anomaly"@,
            r.pid == self.pid,
            r.uid is None,
            r.ppid is None,
            r.name == self.name,
            r.path == self.path,
            r.cpu == Some(self.cpu_pct),
            r.ram == Some(self.ram_pct),
            r.reason == Some(self.reason),
    {
        ExportRecord {
            ts: self.ts,
            kind: "anomaly".to_string(),
            pid: self.pid,
            uid: None,
            ppid: None,
            name: self.name.clone(),
            path: clone_opt(&self.path),
            cpu: Some(self.cpu_pct),
            ram: Some(self.ram_pct),
            reason: Some(self.reason.clone()),
        }
    }
}

impl SampleEvent {
    /// The row of a `sample` event: no reason.
    pub fn record(&self) -> (r: ExportRecord)
        ensures
            r.ts == self.ts,
            r.kind@ == "sample"@,
            r.pid == self.pid,
            r.uid == Some(self.uid),
            r.ppid == Some(self.ppid),
            r.name == self.name,
            r.path == self.path,
            r.cpu == Some(self.cpu_pct),
            r.ram == Some(self.ram_pct),
            r.reason is None,
    {
        ExportRecord {
            ts: self.ts,
            kind: "sample".to_string(),
            pid: self.pid,
            uid: Some(self.uid),
            ppid: Some(self.ppid),
            name: self.name.clone(),
            path: clone_opt(&self.path),
            cpu: Some(self.cpu_pct),
            ram: Some(self.ram_pct),
            reason: None,
        }
    }
}

impl SystemOverloadEvent {
    /// The row of a `system_overload` event: no uid and no ppid.
    pub fn record(&self) -> (r: ExportRecord)
        ensures
            r.ts == self.ts,
            r.kind@ == "system_overload"@,
            r.pid == self.pid,
            r.uid is None,
            r.ppid is None,
            r.name == self.name,
            r.path == self.path,
            r.cpu == Some(self.cpu_pct),
            r.ram == Some(self.ram_pct),
            r.reason == Some(self.reason),
    {
        ExportRecord {
            ts: self.ts,
            kind: "system_overload".to_string(),
            pid: self.pid,
            uid: None,
            ppid: None,
            name: self.name.clone(),
            path: clone_opt(&self.path),
            cpu: Some(self.cpu_pct),
            ram: Some(self.ram_pct),
            reason: Some(self.reason.clone()),
        }
    }
}

impl AuditEvent {
    /// The row of an `audit` event: the action stands in the reason column.
    pub fn record(&self) -> (r: ExportRecord)
        ensures
            r.ts == self.ts,
            r.kind@ == "audit"@,
            r.pid == self.pid,
            r.uid == Some(self.uid),
            r.ppid == Some(self.ppid),
            r.name == self.name,
            r.path == self.path,
            r.cpu is None,
            r.ram is None,
            r.reason == Some(self.action),
    {
        ExportRecord {
            ts: self.ts,
            kind: "audit".to_string(),
            pid: self.pid,
            uid: Some(self.uid),
            ppid: Some(self.ppid),
            name: self.name.clone(),
            path: clone_opt(&self.path),
            cpu: None,
            ram: None,
            reason: Some(self.action.clone()),
        }
    }
}

fn push_csv_field(out: &mut String, field: &String, last: bool)
    ensures
        final(out)@ == old(out)@ + csv_field(field@) + if last {
            seq!['\n']
        } else {
            seq![',']
        },
{
    let e = csv_escape(field.as_str());
    out.append(e.as_str());
    push_char(out, if last { '\n' } else { ',' });
}

/// The CSV row of `rec`, newline included.
pub fn csv_line(rec: &ExportRecord) -> (r: String)
    ensures
        r@ == csv_line_spec(rec),
{
    let mut out = String::new();
    push_csv_field(&mut out, &decimal(rec.ts), false);
    push_csv_field(&mut out, &rec.kind, false);
    push_csv_field(&mut out, &decimal(rec.pid as u64), false);
    push_csv_field(&mut out, &opt_u32(rec.uid), false);
    push_csv_field(&mut out, &opt_u32(rec.ppid), false);
    push_csv_field(&mut out, &rec.name, false);
    push_csv_field(&mut out, &opt_str(&rec.path), false);
    push_csv_field(&mut out, &opt_pct(rec.cpu), false);
    push_csv_field(&mut out, &opt_pct(rec.ram), false);
    push_csv_field(&mut out, &opt_str(&rec.reason), true);
    out
}

/// The JSON line of `rec`, newline included.
pub fn json_line(rec: &ExportRecord) -> (r: String)
    ensures
        r@ == json_line_spec(rec),
{
    let mut out = String::new();
    push_char(&mut out, '{');
    out.append("\"ts\":");
    push_decimal(&mut out, rec.ts);
    push_char(&mut out, ',');
    out.append("\"kind\":\"");
    push_json_text(&mut out, rec.kind.as_str());
    push_char(&mut out, '"');
    push_char(&mut out, ',');
    out.append("\"pid\":");
    push_decimal(&mut out, rec.pid as u64);
    push_char(&mut out, ',');
    out.append(json_opt_u32("uid", rec.uid).as_str());
    out.append(json_opt_u32("ppid", rec.ppid).as_str());
    out.append("\"name\":\"");
    push_json_text(&mut out, rec.name.as_str());
    push_char(&mut out, '"');
    push_char(&mut out, ',');
    out.append(json_opt_str("path", &rec.path).as_str());
    out.append(json_opt_pct("cpu", rec.cpu).as_str());
    out.append(json_opt_pct("ram", rec.ram).as_str());
    let reason = chars_of(json_opt_str("reason", &rec.reason).as_str());
    let ghost before = out@;
    let mut i: usize = 0;
    while i + 1 < reason.len()
        invariant
            i < reason.len(),
            reason.len() > 0,
            out@ == before + reason@.take(i as int),
        decreases reason.len() - i,
    {
        push_char(&mut out, reason[i]);
        assert(reason@.take(i + 1) == reason@.take(i as int).push(reason@[i as int]));
        i += 1;
    }
    assert(reason@.take(i as int) == reason@.drop_last());
    push_char(&mut out, '}');
    push_char(&mut out, '\n');
    assert(out@ =~= json_line_spec(rec));
    out
}

} // verus!
