//! The allowlist: five rule sets and a list of argument-substring rules,
//! read from a line-oriented `key: value` text.
use std::collections::HashSet;

use vstd::prelude::*;
use vstd::string::StringExecFns;

use crate::export::{dec, decimal};
use crate::text::{
    chars_of, find_from, lower_of, lowercase, parse_u32, parse_u32_spec, string_of_range, trim,
    trim_range,
};

verus! {

broadcast use vstd::std_specs::hash::group_hash_axioms;

/// The rules of an allowlist. The name, path and hash lists are read as
/// sets, and the parser adds a rule to them only once.
pub struct Allowlist {
    pub names: Vec<String>,
    pub paths: Vec<String>,
    pub hashes: Vec<String>,
    pub uids: HashSet<u32>,
    pub ppids: HashSet<u32>,
    pub args: Vec<String>,
}

/// What an allowlist means.
pub ghost struct AllowlistView {
    pub names: Set<Seq<char>>,
    pub paths: Set<Seq<char>>,
    pub hashes: Set<Seq<char>>,
    pub uids: Set<u32>,
    pub ppids: Set<u32>,
    pub args: Seq<Seq<char>>,
}

pub open spec fn strings_view(v: Seq<String>) -> Seq<Seq<char>> {
    v.map_values(|s: String| s@)
}

impl View for Allowlist {
    type V = AllowlistView;

    open spec fn view(&self) -> AllowlistView {
        AllowlistView {
            names: strings_view(self.names@).to_set(),
            paths: strings_view(self.paths@).to_set(),
            hashes: strings_view(self.hashes@).to_set(),
            uids: self.uids@,
            ppids: self.ppids@,
            args: strings_view(self.args@),
        }
    }
}

impl Allowlist {
    /// Each of the name, path and hash lists holds a rule once.
    pub open spec fn wf(&self) -> bool {
        &&& strings_view(self.names@).no_duplicates()
        &&& strings_view(self.paths@).no_duplicates()
        &&& strings_view(self.hashes@).no_duplicates()
    }
}

impl AllowlistView {
    pub open spec fn empty() -> AllowlistView {
        AllowlistView {
            names: Set::empty(),
            paths: Set::empty(),
            hashes: Set::empty(),
            uids: Set::empty(),
            ppids: Set::empty(),
            args: seq![],
        }
    }

    pub open spec fn is_empty(self) -> bool {
        &&& self.names.is_empty()
        &&& self.paths.is_empty()
        &&& self.hashes.is_empty()
        &&& self.uids.is_empty()
        &&& self.ppids.is_empty()
        &&& self.args.len() == 0
    }
}

/// Why an allowlist text was refused. Lines are numbered from 1.
pub enum AllowlistError {
    Malformed { line: usize, text: String },
    EmptyValue { line: usize },
    InvalidUid { line: usize },
    InvalidPpid { line: usize },
    UnknownKey { line: usize, key: String },
    Empty,
}

pub ghost enum AllowlistErrorView {
    Malformed(nat, Seq<char>),
    EmptyValue(nat),
    InvalidUid(nat),
    InvalidPpid(nat),
    UnknownKey(nat, Seq<char>),
    Empty,
}

impl View for AllowlistError {
    type V = AllowlistErrorView;

    open spec fn view(&self) -> AllowlistErrorView {
        match self {
            AllowlistError::Malformed { line, text } => AllowlistErrorView::Malformed(
                *line as nat,
                text@,
            ),
            AllowlistError::EmptyValue { line } => AllowlistErrorView::EmptyValue(*line as nat),
            AllowlistError::InvalidUid { line } => AllowlistErrorView::InvalidUid(*line as nat),
            AllowlistError::InvalidPpid { line } => AllowlistErrorView::InvalidPpid(*line as nat),
            AllowlistError::UnknownKey { line, key } => AllowlistErrorView::UnknownKey(
                *line as nat,
                key@,
            ),
            AllowlistError::Empty => AllowlistErrorView::Empty,
        }
    }
}

/// The effect of one line on the allowlist read so far.
pub open spec fn apply_line_spec(al: AllowlistView, no: nat, raw: Seq<char>) -> Result<
    AllowlistView,
    AllowlistErrorView,
> {
    let line = trim(raw);
    if line.len() == 0 || line[0] == '#' {
        Ok(al)
    } else {
        let c = find_from(line, ':', 0);
        if c >= line.len() {
            Err(AllowlistErrorView::Malformed(no, line))
        } else {
            let value = trim(line.subrange(c + 1, line.len() as int));
            rule_spec(al, no, lower_of(trim(line.subrange(0, c))), value, lower_of(value))
        }
    }
}

/// The effect of the rule `key: value` of line `no`, where `key` is already
/// folded to lower case and `folded_value` is `value` folded to lower case.
pub open spec fn rule_spec(
    al: AllowlistView,
    no: nat,
    key: Seq<char>,
    value: Seq<char>,
    folded_value: Seq<char>,
) -> Result<AllowlistView, AllowlistErrorView> {
    if value.len() == 0 {
        Err(AllowlistErrorView::EmptyValue(no))
    } else if key == "name"@ {
        Ok(AllowlistView { names: al.names.insert(value), ..al })
    } else if key == "path"@ {
        Ok(AllowlistView { paths: al.paths.insert(value), ..al })
    } else if key == "hash"@ {
        Ok(AllowlistView { hashes: al.hashes.insert(folded_value), ..al })
    } else if key == "uid"@ {
        match parse_u32_spec(value) {
            Some(u) => Ok(AllowlistView { uids: al.uids.insert(u), ..al }),
            None => Err(AllowlistErrorView::InvalidUid(no)),
        }
    } else if key == "ppid"@ {
        match parse_u32_spec(value) {
            Some(u) => Ok(AllowlistView { ppids: al.ppids.insert(u), ..al }),
            None => Err(AllowlistErrorView::InvalidPpid(no)),
        }
    } else if key == "arg"@ {
        Ok(AllowlistView { args: al.args.push(value), ..al })
    } else {
        Err(AllowlistErrorView::UnknownKey(no, key))
    }
}

/// Reads `s` from position `i`, where the current line began at `start` and
/// has number `no`; lines end at `\n`, and a last line may go without one.
pub open spec fn parse_from(al: AllowlistView, s: Seq<char>, i: int, start: int, no: nat) -> Result<
    AllowlistView,
    AllowlistErrorView,
>
    decreases s.len() - i,
{
    if i < 0 || i >= s.len() {
        if 0 <= start < s.len() {
            apply_line_spec(al, no, s.subrange(start, s.len() as int))
        } else {
            Ok(al)
        }
    } else if s[i] == '\n' {
        match apply_line_spec(al, no, s.subrange(start, i)) {
            Ok(next) => parse_from(next, s, i + 1, i + 1, no + 1),
            Err(e) => Err(e),
        }
    } else {
        parse_from(al, s, i + 1, start, no)
    }
}

/// The allowlist that a text describes, or why it is refused.
pub open spec fn allowlist_spec(content: Seq<char>) -> Result<AllowlistView, AllowlistErrorView> {
    match parse_from(AllowlistView::empty(), content, 0, 0, 1) {
        Ok(al) => if al.is_empty() {
            Err(AllowlistErrorView::Empty)
        } else {
            Ok(al)
        },
        Err(e) => Err(e),
    }
}

pub open spec fn parsed_view(r: Result<Allowlist, AllowlistError>) -> Result<
    AllowlistView,
    AllowlistErrorView,
> {
    match r {
        Ok(al) => Ok(al@),
        Err(e) => Err(e@),
    }
}

pub open spec fn message_spec(e: AllowlistErrorView) -> Seq<char> {
    match e {
        AllowlistErrorView::Malformed(n, t) => "invalid allowlist line "@ + dec(n) + ": "@ + t,
        AllowlistErrorView::EmptyValue(n) => "empty value on line "@ + dec(n),
        AllowlistErrorView::InvalidUid(n) => "invalid uid on line "@ + dec(n),
        AllowlistErrorView::InvalidPpid(n) => "invalid ppid on line "@ + dec(n),
        AllowlistErrorView::UnknownKey(n, k) => "unknown key on line "@ + dec(n) + ": "@ + k,
        AllowlistErrorView::Empty => "allowlist is empty"@,
    }
}

impl AllowlistError {
    /// A sentence that says what is wrong, and on which line.
    pub fn message(&self) -> (r: String)
        ensures
            r@ == message_spec(self@),
    {
        match self {
            AllowlistError::Malformed { line, text } => {
                let mut s = "invalid allowlist line ".to_string();
                s.append(decimal(*line as u64).as_str());
                s.append(": ");
                s.append(text.as_str());
                s
            },
            AllowlistError::EmptyValue { line } => {
                let mut s = "empty value on line ".to_string();
                s.append(decimal(*line as u64).as_str());
                s
            },
            AllowlistError::InvalidUid { line } => {
                let mut s = "invalid uid on line ".to_string();
                s.append(decimal(*line as u64).as_str());
                s
            },
            AllowlistError::InvalidPpid { line } => {
                let mut s = "invalid ppid on line ".to_string();
                s.append(decimal(*line as u64).as_str());
                s
            },
            AllowlistError::UnknownKey { line, key } => {
                let mut s = "unknown key on line ".to_string();
                s.append(decimal(*line as u64).as_str());
                s.append(": ");
                s.append(key.as_str());
                s
            },
            AllowlistError::Empty => "allowlist is empty".to_string(),
        }
    }
}

proof fn lemma_push_string(v: Seq<String>, s: String)
    ensures
        strings_view(v.push(s)) == strings_view(v).push(s@),
        strings_view(v.push(s)).to_set() == strings_view(v).to_set().insert(s@),
{
    assert(strings_view(v.push(s)) =~= strings_view(v).push(s@));
    strings_view(v).lemma_push_to_set_commute(s@);
}

/// Whether `s` is one of the strings of `v`.
pub(crate) fn contains_string(v: &Vec<String>, s: &String) -> (r: bool)
    ensures
        r == strings_view(v@).contains(s@),
{
    let mut i: usize = 0;
    while i < v.len()
        invariant
            i <= v@.len(),
            forall|j: int| 0 <= j < i ==> v@[j]@ != s@,
        decreases v.len() - i,
    {
        if v[i] == *s {
            assert(strings_view(v@)[i as int] == s@);
            return true;
        }
        i += 1;
    }
    proof {
        if strings_view(v@).contains(s@) {
            let j = choose|j: int| 0 <= j < strings_view(v@).len() && strings_view(v@)[j] == s@;
            assert(v@[j]@ == s@);
        }
    }
    false
}

/// Adds `s` to the strings of `v` unless it is there already.
fn insert_string(v: &mut Vec<String>, s: String)
    requires
        strings_view(old(v)@).no_duplicates(),
    ensures
        strings_view(final(v)@).no_duplicates(),
        strings_view(final(v)@).to_set() == strings_view(old(v)@).to_set().insert(s@),
{
    if contains_string(v, &s) {
        assert(strings_view(v@).to_set().insert(s@) =~= strings_view(v@).to_set());
    } else {
        proof {
            lemma_push_string(v@, s);
            lemma_push_fresh(strings_view(v@), s@);
        }
        v.push(s);
    }
}

proof fn lemma_push_fresh<A>(s: Seq<A>, x: A)
    requires
        s.no_duplicates(),
        !s.contains(x),
    ensures
        s.push(x).no_duplicates(),
{
    assert forall|a: int, b: int| 0 <= a < b < s.push(x).len() implies s.push(x)[a] != s.push(x)[b] by {
        if b == s.len() {
            assert(s[a] != x);
        }
    }
}

proof fn lemma_find_first(s: Seq<char>, c: char, i: int, j: int)
    requires
        0 <= i <= j <= s.len(),
        forall|k: int| i <= k < j ==> s[k] != c,
        j == s.len() || s[j] == c,
    ensures
        find_from(s, c, i) == j,
    decreases j - i,
{
    if i < j {
        lemma_find_first(s, c, i + 1, j);
    }
}

impl Allowlist {
    /// An allowlist without rules.
    pub fn new() -> (r: Allowlist)
        ensures
            r@ == AllowlistView::empty(),
            r.wf(),
    {
        let r = Allowlist {
            names: Vec::new(),
            paths: Vec::new(),
            hashes: Vec::new(),
            uids: HashSet::new(),
            ppids: HashSet::new(),
            args: Vec::new(),
        };
        assert(r@.names =~= Set::empty());
        assert(r@.paths =~= Set::empty());
        assert(r@.hashes =~= Set::empty());
        assert(r@.uids =~= Set::empty());
        assert(r@.ppids =~= Set::empty());
        assert(r@.args =~= seq![]);
        r
    }

    /// Whether the allowlist holds no rule at all.
    pub fn is_empty(&self) -> (r: bool)
        ensures
            r == self@.is_empty(),
    {
        proof {
            if self.names.len() > 0 {
                assert(self@.names.contains(strings_view(self.names@)[0]));
            }
            if self.paths.len() > 0 {
                assert(self@.paths.contains(strings_view(self.paths@)[0]));
            }
            if self.hashes.len() > 0 {
                assert(self@.hashes.contains(strings_view(self.hashes@)[0]));
            }
            assert(self.names.len() == 0 ==> self@.names =~= Set::empty());
            assert(self.paths.len() == 0 ==> self@.paths =~= Set::empty());
            assert(self.hashes.len() == 0 ==> self@.hashes =~= Set::empty());
        }
        self.names.len() == 0 && self.paths.len() == 0 && self.hashes.len() == 0
            && self.uids.is_empty() && self.ppids.is_empty() && self.args.len() == 0
    }

    /// Applies the line `chars[lo..hi]`, numbered `no`.
    fn apply_line(&mut self, no: usize, chars: &Vec<char>, lo: usize, hi: usize) -> (r: Result<
        (),
        AllowlistError,
    >)
        requires
            lo <= hi <= chars@.len(),
            old(self).wf(),
        ensures
            match apply_line_spec(old(self)@, no as nat, chars@.subrange(lo as int, hi as int)) {
                Ok(v) => r is Ok && final(self)@ == v && final(self).wf(),
                Err(e) => r matches Err(x) && x@ == e,
            },
    {
        let ghost raw = chars@.subrange(lo as int, hi as int);
        let (a, b) = trim_range(chars, lo, hi);
        let ghost line = chars@.subrange(a as int, b as int);
        if a == b || chars[a] == '#' {
            return Ok(());
        }
        let mut j = a;
        while j < b && chars[j] != ':'
            invariant
                a <= j <= b <= chars@.len(),
                line == chars@.subrange(a as int, b as int),
                forall|k: int| 0 <= k < j - a ==> line[k] != ':',
            decreases b - j,
        {
            j += 1;
        }
        proof {
            lemma_find_first(line, ':', 0, j - a);
        }
        if j == b {
            return Err(AllowlistError::Malformed { line: no, text: string_of_range(chars, a, b) });
        }
        assert(line.subrange(0, j - a) == chars@.subrange(a as int, j as int));
        assert(line.subrange(j - a + 1, line.len() as int) == chars@.subrange(j + 1, b as int));
        let (ka, kb) = trim_range(chars, a, j);
        let key_raw = string_of_range(chars, ka, kb);
        let key = lowercase(key_raw.as_str());
        let (va, vb) = trim_range(chars, j + 1, b);
        let value = string_of_range(chars, va, vb);
        let folded = lowercase(value.as_str());
        self.add_rule(no, key.as_str(), value.as_str(), folded.as_str())
    }

    /// Adds the rule `key: value` of line `line`, where `key` is already
    /// folded to lower case and `folded_value` is `value` folded to lower
    /// case (the form a digest rule is kept in).
    pub fn add_rule(&mut self, line: usize, key: &str, value: &str, folded_value: &str) -> (r:
        Result<(), AllowlistError>)
        requires
            old(self).wf(),
        ensures
            match rule_spec(old(self)@, line as nat, key@, value@, folded_value@) {
                Ok(v) => r is Ok && final(self)@ == v && final(self).wf(),
                Err(e) => r matches Err(x) && x@ == e,
            },
    {
        if value.is_empty() {
            return Err(AllowlistError::EmptyValue { line });
        }
        let key = key.to_string();
        let value = value.to_string();
        proof {
            lemma_push_string(self.args@, value);
        }
        if key == "name".to_string() {
            insert_string(&mut self.names, value);
            Ok(())
        } else if key == "path".to_string() {
            insert_string(&mut self.paths, value);
            Ok(())
        } else if key == "hash".to_string() {
            insert_string(&mut self.hashes, folded_value.to_string());
            Ok(())
        } else if key == "uid".to_string() || key == "ppid".to_string() {
            let vc = chars_of(value.as_str());
            assert(vc@.subrange(0, vc@.len() as int) == vc@);
            match parse_u32(&vc, 0, vc.len()) {
                Some(u) => {
                    if key == "uid".to_string() {
                        self.uids.insert(u);
                    } else {
                        self.ppids.insert(u);
                    }
                    Ok(())
                },
                None => {
                    if key == "uid".to_string() {
                        Err(AllowlistError::InvalidUid { line })
                    } else {
                        Err(AllowlistError::InvalidPpid { line })
                    }
                },
            }
        } else if key == "arg".to_string() {
            self.args.push(value);
            Ok(())
        } else {
            Err(AllowlistError::UnknownKey { line, key })
        }
    }
}

/// Reads an allowlist text: each line that is not blank and does not start
/// with `#` is `key: value`, with `name`, `path`, `hash` (folded to lower
/// case), `uid`, `ppid` (unsigned integers) or `arg` as key. A malformed line
/// or an unknown key is refused with its line number; an allowlist without
/// rules is refused too.
pub fn parse_allowlist(content: &str) -> (r: Result<Allowlist, AllowlistError>)
    ensures
        parsed_view(r) == allowlist_spec(content@),
        r matches Ok(al) ==> al.wf(),
{
    let chars = chars_of(content);
    let n = chars.len();
    let mut al = Allowlist::new();
    let mut start: usize = 0;
    let mut no: usize = 1;
    let mut i: usize = 0;
    while i < n
        invariant
            n == chars@.len(),
            chars@ == content@,
            start <= i <= n,
            1 <= no <= i + 1,
            al.wf(),
            parse_from(AllowlistView::empty(), chars@, 0, 0, 1) == parse_from(
                al@,
                chars@,
                i as int,
                start as int,
                no as nat,
            ),
        decreases n - i,
    {
        if chars[i] == '\n' {
            match al.apply_line(no, &chars, start, i) {
                Ok(()) => {},
                Err(e) => {
                    return Err(e);
                },
            }
            start = i + 1;
            if i + 1 < n {
                no = no + 1;
            } else {
                assert(parse_from(al@, chars@, n as int, n as int, no as nat) == parse_from(
                    al@,
                    chars@,
                    n as int,
                    n as int,
                    (no + 1) as nat,
                ));
            }
        }
        i += 1;
    }
    if start < n {
        match al.apply_line(no, &chars, start, n) {
            Ok(()) => {},
            Err(e) => {
                return Err(e);
            },
        }
    }
    if al.is_empty() {
        return Err(AllowlistError::Empty);
    }
    Ok(al)
}

} // verus!
