//! Trust decisions: a process is checked against the allowlist tier by tier,
//! in a fixed order, and the first tier that matches decides.
//!
//! The last tier compares the content digest of the executable. Computing a
//! digest reads a file, which the caller does: the verdict `NeedsDigest` asks
//! for the digest of the record's path, and once it stands in the
//! `HashCache` the same question is answered.
use vstd::prelude::*;

use crate::config::{contains_string, strings_view, Allowlist, AllowlistView};
use crate::platform::ProcessInfo;
use crate::text::{chars_of, lower_of, lowercase};

verus! {

broadcast use vstd::std_specs::hash::group_hash_axioms;

/// The outcome of a trust check.
#[derive(Clone, Copy, Debug, PartialEq, Eq, Structural)]
pub enum Verdict {
    Allowed,
    Denied,
    /// Only the digest of the executable can decide; it is not cached yet.
    NeedsDigest,
}

/// Content digests already computed, by executable path. A later entry for a
/// path stands over an earlier one.
pub struct HashCache {
    pub entries: Vec<(String, String)>,
}

pub open spec fn cache_map(s: Seq<(String, String)>) -> Map<Seq<char>, Seq<char>>
    decreases s.len(),
{
    if s.len() == 0 {
        Map::empty()
    } else {
        cache_map(s.drop_last()).insert(s.last().0@, s.last().1@)
    }
}

impl View for HashCache {
    type V = Map<Seq<char>, Seq<char>>;

    open spec fn view(&self) -> Map<Seq<char>, Seq<char>> {
        cache_map(self.entries@)
    }
}

impl HashCache {
    /// A cache with no digest.
    pub fn new() -> (r: HashCache)
        ensures
            r@ == Map::<Seq<char>, Seq<char>>::empty(),
    {
        HashCache { entries: Vec::new() }
    }

    /// The digest cached for `path`, if any.
    pub fn get(&self, path: &String) -> (r: Option<String>)
        ensures
            r is Some <==> self@.contains_key(path@),
            r matches Some(d) ==> d@ == self@[path@],
    {
        let mut j = self.entries.len();
        assert(self.entries@.take(j as int) == self.entries@);
        while j > 0
            invariant
                j <= self.entries@.len(),
                forall|m: int|
                    j <= m < self.entries@.len() ==> #[trigger] self.entries@[m].0@ != path@,
                cache_map(self.entries@.take(j as int)).contains_key(path@) == self@.contains_key(
                    path@,
                ),
                self@.contains_key(path@) ==> cache_map(self.entries@.take(j as int))[path@]
                    == self@[path@],
            decreases j,
        {
            proof {
                lemma_cache_tail(self.entries@, j as int);
            }
            assert(self.entries@.take(j as int).drop_last() == self.entries@.take(j - 1));
            assert(self.entries@.take(j as int).last() == self.entries@[j - 1]);
            if self.entries[j - 1].0 == *path {
                return Some(self.entries[j - 1].1.clone());
            }
            j -= 1;
        }
        None
    }

    /// Records the digest of `path`.
    pub fn insert(&mut self, path: String, digest: String)
        ensures
            final(self)@ == old(self)@.insert(path@, digest@),
    {
        self.entries.push((path, digest));
        assert(self.entries@.drop_last() == old(self).entries@);
    }
}

proof fn lemma_cache_tail(s: Seq<(String, String)>, j: int)
    requires
        0 < j <= s.len(),
    ensures
        cache_map(s.take(j)) == cache_map(s.take(j - 1)).insert(s[j - 1].0@, s[j - 1].1@),
{
    assert(s.take(j).drop_last() == s.take(j - 1));
}

/// The arguments joined with single spaces.
pub open spec fn join_args(a: Seq<Seq<char>>) -> Seq<char>
    decreases a.len(),
{
    if a.len() == 0 {
        seq![]
    } else if a.len() == 1 {
        a[0]
    } else {
        join_args(a.drop_last()) + seq![' '] + a.last()
    }
}

/// Whether `needle` occurs anywhere in `hay`.
pub open spec fn contains_sub(hay: Seq<char>, needle: Seq<char>) -> bool {
    exists|i: int|
        0 <= i && i + needle.len() <= hay.len() && #[trigger] hay.subrange(i, i + needle.len())
            == needle
}

/// Whether some argument rule occurs in the joined argument vector.
pub open spec fn args_match(args: Seq<Seq<char>>, rules: Seq<Seq<char>>) -> bool {
    &&& rules.len() > 0
    &&& args.len() > 0
    &&& exists|k: int| 0 <= k < rules.len() && contains_sub(join_args(args), #[trigger] rules[k])
}

/// Whether a digest matches a digest rule: an empty digest (a file that
/// could not be read) never does; another one does when its lower-case form
/// `folded` is among the rules.
pub open spec fn digest_match_spec(al: AllowlistView, digest: Seq<char>, folded: Seq<char>) -> bool {
    digest.len() > 0 && al.hashes.contains(folded)
}

/// The digest tier on a digest and its lower-case form `folded`.
pub fn digest_matches(allowlist: &Allowlist, digest: &str, folded: &str) -> (r: bool)
    ensures
        r == digest_match_spec(allowlist@, digest@, folded@),
{
    if digest.is_empty() {
        return false;
    }
    contains_string(&allowlist.hashes, &folded.to_string())
}

/// The decision on a process: name, path, uid, ppid, argument substring, and
/// last the content digest of the executable, which is asked for only when
/// the allowlist has digest rules and the process a path. An empty digest
/// (a file that could not be read) never matches.
pub open spec fn verdict_spec(
    info: &ProcessInfo,
    al: AllowlistView,
    cache: Map<Seq<char>, Seq<char>>,
) -> Verdict {
    if al.names.contains(info.name@) {
        Verdict::Allowed
    } else if info.path matches Some(p) && al.paths.contains(p@) {
        Verdict::Allowed
    } else if al.uids.contains(info.uid) {
        Verdict::Allowed
    } else if al.ppids.contains(info.ppid) {
        Verdict::Allowed
    } else if args_match(strings_view(info.args@), al.args) {
        Verdict::Allowed
    } else if !al.hashes.is_empty() && info.path is Some {
        let p = info.path->0@;
        if !cache.contains_key(p) {
            Verdict::NeedsDigest
        } else if digest_match_spec(al, cache[p], lower_of(cache[p])) {
            Verdict::Allowed
        } else {
            Verdict::Denied
        }
    } else {
        Verdict::Denied
    }
}

/// Whether `needle` occurs in `hay` at position `i`.
fn matches_at(hay: &Vec<char>, needle: &Vec<char>, i: usize) -> (r: bool)
    requires
        i + needle@.len() <= hay@.len(),
    ensures
        r == (hay@.subrange(i as int, i + needle@.len()) == needle@),
{
    let mut k: usize = 0;
    while k < needle.len()
        invariant
            k <= needle@.len(),
            i + needle@.len() <= hay@.len(),
            forall|m: int| 0 <= m < k ==> hay@[i + m] == needle@[m],
        decreases needle.len() - k,
    {
        assert(i + k < hay.len());
        if hay[i + k] != needle[k] {
            assert(hay@.subrange(i as int, i + needle@.len())[k as int] != needle@[k as int]);
            return false;
        }
        k += 1;
    }
    assert(hay@.subrange(i as int, i + needle@.len()) =~= needle@);
    true
}

/// Whether `needle` occurs anywhere in `hay`.
pub fn contains_chars(hay: &Vec<char>, needle: &Vec<char>) -> (r: bool)
    ensures
        r == contains_sub(hay@, needle@),
{
    if needle.len() > hay.len() {
        return false;
    }
    let last = hay.len() - needle.len();
    let mut i: usize = 0;
    loop
        invariant
            i <= last,
            last == hay@.len() - needle@.len(),
            forall|j: int|
                0 <= j < i ==> #[trigger] hay@.subrange(j, j + needle@.len()) != needle@,
        decreases last - i,
    {
        if matches_at(hay, needle, i) {
            return true;
        }
        if i == last {
            return false;
        }
        i += 1;
    }
}

/// The characters of the arguments joined with single spaces.
pub fn joined_args(args: &Vec<String>) -> (r: Vec<char>)
    ensures
        r@ == join_args(strings_view(args@)),
{
    let mut out: Vec<char> = Vec::new();
    let mut i: usize = 0;
    while i < args.len()
        invariant
            i <= args@.len(),
            out@ == join_args(strings_view(args@).take(i as int)),
        decreases args.len() - i,
    {
        let cs = chars_of(args[i].as_str());
        let ghost before = out@;
        if i > 0 {
            out.push(' ');
        }
        let mut k: usize = 0;
        while k < cs.len()
            invariant
                k <= cs@.len(),
                out@ == (if i > 0 {
                    before + seq![' ']
                } else {
                    before
                }) + cs@.take(k as int),
            decreases cs.len() - k,
        {
            out.push(cs[k]);
            assert(cs@.take(k + 1) == cs@.take(k as int).push(cs@[k as int]));
            k += 1;
        }
        assert(cs@.take(cs@.len() as int) == cs@);
        proof {
            let t = strings_view(args@).take(i + 1);
            assert(t.drop_last() == strings_view(args@).take(i as int));
            assert(t.last() == cs@);
            if i == 0 {
                assert(before == Seq::<char>::empty());
                assert(t.len() == 1);
                assert(out@ =~= t[0]);
            }
        }
        i += 1;
    }
    assert(strings_view(args@).take(args@.len() as int) == strings_view(args@));
    out
}

/// Whether some argument rule occurs in the joined arguments of the process.
fn args_allowed(args: &Vec<String>, rules: &Vec<String>) -> (r: bool)
    ensures
        r == args_match(strings_view(args@), strings_view(rules@)),
{
    if rules.len() == 0 || args.len() == 0 {
        return false;
    }
    let joined = joined_args(args);
    let mut k: usize = 0;
    while k < rules.len()
        invariant
            k <= rules@.len(),
            joined@ == join_args(strings_view(args@)),
            args@.len() > 0,
            forall|j: int|
                0 <= j < k ==> !contains_sub(joined@, #[trigger] strings_view(rules@)[j]),
        decreases rules.len() - k,
    {
        let needle = chars_of(rules[k].as_str());
        assert(strings_view(rules@)[k as int] == needle@);
        if contains_chars(&joined, &needle) {
            assert(contains_sub(joined@, strings_view(rules@)[k as int]));
            assert(strings_view(args@).len() > 0);
            return true;
        }
        k += 1;
    }
    false
}

/// Decides whether a process is trusted; see `verdict_spec` for the order of
/// the tiers. The cache is only read.
pub fn is_allowed(info: &ProcessInfo, allowlist: &Allowlist, cache: &HashCache) -> (r: Verdict)
    ensures
        r == verdict_spec(info, allowlist@, cache@),
{
    if contains_string(&allowlist.names, &info.name) {
        return Verdict::Allowed;
    }
    if let Some(path) = &info.path {
        if contains_string(&allowlist.paths, path) {
            return Verdict::Allowed;
        }
    }
    if allowlist.uids.contains(&info.uid) {
        return Verdict::Allowed;
    }
    if allowlist.ppids.contains(&info.ppid) {
        return Verdict::Allowed;
    }
    if args_allowed(&info.args, &allowlist.args) {
        return Verdict::Allowed;
    }
    proof {
        if allowlist.hashes.len() > 0 {
            assert(allowlist@.hashes.contains(strings_view(allowlist.hashes@)[0]));
        } else {
            assert(allowlist@.hashes =~= Set::empty());
        }
    }
    if allowlist.hashes.len() > 0 {
        if let Some(path) = &info.path {
            return match cache.get(path) {
                None => Verdict::NeedsDigest,
                Some(digest) => {
                    let folded = lowercase(digest.as_str());
                    if digest_matches(allowlist, digest.as_str(), folded.as_str()) {
                        Verdict::Allowed
                    } else {
                        Verdict::Denied
                    }
                },
            };
        }
    }
    Verdict::Denied
}

/// The name tier comes first: a process whose name is trusted is allowed,
/// whatever the digest rules and the cached digests would say of it.
pub proof fn lemma_name_tier_wins(
    info: &ProcessInfo,
    al: AllowlistView,
    cache: Map<Seq<char>, Seq<char>>,
)
    requires
        al.names.contains(info.name@),
    ensures
        verdict_spec(info, al, cache) == Verdict::Allowed,
{
}

} // verus!
