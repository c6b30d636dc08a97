//! The parts of the macOS backend that compute on what the kernel returns:
//! decoding a process's raw argument block, and telling system processes apart.
use vstd::prelude::*;
use vstd::utf8::{decode_utf8, valid_utf8};

use crate::platform::ProcessInfo;
use crate::text::{has_prefix, utf8_to_string};

verus! {

/// The little-endian `u32` held by the first four bytes of `b`.
pub open spec fn le_u32(b: Seq<u8>) -> int {
    b[0] + 256 * b[1] + 65536 * b[2] + 16777216 * b[3]
}

/// The first position at or after `i` whose byte is NUL (`nul`) or not NUL
/// (`!nul`), or the end of the block.
pub open spec fn skip_from(buf: Seq<u8>, i: int, nul: bool) -> int
    decreases buf.len() - i,
{
    if 0 <= i < buf.len() && (buf[i] == 0) != nul {
        skip_from(buf, i + 1, nul)
    } else {
        i
    }
}

/// At most `k` arguments read from position `i`: each is the bytes up to
/// the next NUL (or the end of the block), and the next one starts just
/// after that NUL. An empty argument is kept; one that is not UTF-8 is left
/// out. Nothing is read once `k` arguments are taken or the block ends.
pub open spec fn args_from(buf: Seq<u8>, i: int, k: nat) -> Seq<Seq<char>>
    decreases k,
{
    if k == 0 || i < 0 || i >= buf.len() {
        seq![]
    } else {
        let end = skip_from(buf, i, true);
        let token = buf.subrange(i, end);
        let rest = args_from(buf, end + 1, (k - 1) as nat);
        if valid_utf8(token) {
            seq![decode_utf8(token)] + rest
        } else {
            rest
        }
    }
}

/// The argument vector held by a raw argument block: a little-endian count
/// N, the NUL-terminated executable path, NUL padding, then N NUL-terminated
/// arguments one after another; what follows them is not read.
pub open spec fn proc_args_spec(buf: Seq<u8>) -> Seq<Seq<char>> {
    if buf.len() < 4 {
        seq![]
    } else {
        let after_path = skip_from(buf, 4, true);
        args_from(buf, skip_from(buf, after_path, false), le_u32(buf) as nat)
    }
}

proof fn lemma_skip_bounds(buf: Seq<u8>, i: int, nul: bool)
    requires
        0 <= i <= buf.len(),
    ensures
        i <= skip_from(buf, i, nul) <= buf.len(),
    decreases buf.len() - i,
{
    if i < buf.len() && (buf[i] == 0) != nul {
        lemma_skip_bounds(buf, i + 1, nul);
    }
}

/// The position after the run from `i` of bytes that are NUL (`nul`) or not.
fn skip_run(buf: &[u8], i: usize, nul: bool) -> (r: usize)
    requires
        i <= buf@.len(),
    ensures
        r == skip_from(buf@, i as int, nul),
        i <= r <= buf@.len(),
{
    let mut j = i;
    while j < buf.len() && (buf[j] == 0) != nul
        invariant
            i <= j <= buf@.len(),
            skip_from(buf@, j as int, nul) == skip_from(buf@, i as int, nul),
        decreases buf@.len() - j,
    {
        j += 1;
    }
    j
}

/// Decodes a raw argument block. It never reads past the block nor past the
/// declared count of arguments; where the block ends first, the arguments
/// found so far are returned, and an argument that is not UTF-8 is dropped
/// by itself. An empty argument comes back as an empty string.
pub fn parse_proc_args(buf: &[u8]) -> (r: Vec<String>)
    ensures
        r@.map_values(|s: String| s@) == proc_args_spec(buf@),
{
    let size = buf.len();
    if size < 4 {
        return Vec::new();
    }
    let argc: u32 = buf[0] as u32 + 256 * buf[1] as u32 + 65536 * buf[2] as u32 + 16777216
        * buf[3] as u32;
    let after_path = skip_run(buf, 4, true);
    let start = skip_run(buf, after_path, false);
    let ghost total = args_from(buf@, start as int, argc as nat);
    let mut out: Vec<String> = Vec::new();
    let mut idx = start;
    let mut left = argc;
    while left > 0 && idx < size
        invariant
            size == buf@.len(),
            idx <= size,
            total == out@.map_values(|s: String| s@) + args_from(buf@, idx as int, left as nat),
        decreases left,
    {
        let begin = idx;
        let end = skip_run(buf, begin, true);
        let ghost before = out@.map_values(|s: String| s@);
        let token = vstd::slice::slice_subrange(buf, begin, end);
        match utf8_to_string(token) {
            Some(s) => {
                out.push(s);
                assert(out@.map_values(|s: String| s@) == before.push(
                    decode_utf8(buf@.subrange(begin as int, end as int)),
                ));
            },
            None => {},
        }
        if end < size {
            idx = end + 1;
        } else {
            assert(args_from(buf@, end + 1, (left - 1) as nat) == Seq::<Seq<char>>::empty());
            idx = size;
        }
        left -= 1;
    }
    assert(args_from(buf@, idx as int, left as nat) == Seq::<Seq<char>>::empty());
    assert(out@.map_values(|s: String| s@) + Seq::<Seq<char>>::empty() == out@.map_values(
        |s: String| s@,
    ));
    out
}

/// The install locations of the operating system's own executables.
pub open spec fn system_prefixes() -> Seq<Seq<char>> {
    seq![
        "/System/"@,
        "/usr/libexec/"@,
        "/usr/sbin/"@,
        "/usr/bin/"@,
        "/sbin/"@,
        "/Library/Apple/"@,
    ]
}

pub open spec fn is_system_path(path: Seq<char>) -> bool {
    exists|i: int| 0 <= i < system_prefixes().len() && #[trigger] system_prefixes()[i].is_prefix_of(path)
}

/// Whether the executable of `info` lies under an install location of the
/// operating system.
pub fn is_system_process(info: &ProcessInfo) -> (r: bool)
    ensures
        r == (info.path matches Some(p) && is_system_path(p@)),
{
    match &info.path {
        Some(path) => {
            let p = path.as_str();
            let found = has_prefix(p, "/System/") || has_prefix(p, "/usr/libexec/") || has_prefix(
                p,
                "/usr/sbin/",
            ) || has_prefix(p, "/usr/bin/") || has_prefix(p, "/sbin/") || has_prefix(
                p,
                "/Library/Apple/",
            );
            proof {
                let ps = system_prefixes();
                if found {
                    if "/System/"@.is_prefix_of(p@) {
                        assert(ps[0].is_prefix_of(p@));
                    } else if "/usr/libexec/"@.is_prefix_of(p@) {
                        assert(ps[1].is_prefix_of(p@));
                    } else if "/usr/sbin/"@.is_prefix_of(p@) {
                        assert(ps[2].is_prefix_of(p@));
                    } else if "/usr/bin/"@.is_prefix_of(p@) {
                        assert(ps[3].is_prefix_of(p@));
                    } else if "/sbin/"@.is_prefix_of(p@) {
                        assert(ps[4].is_prefix_of(p@));
                    } else {
                        assert(ps[5].is_prefix_of(p@));
                    }
                } else {
                    assert forall|i: int| 0 <= i < ps.len() implies !#[trigger] ps[i].is_prefix_of(
                        p@,
                    ) by {
                        if i == 0 {
                        } else if i == 1 {
                        } else if i == 2 {
                        } else if i == 3 {
                        } else if i == 4 {
                        } else {
                        }
                    }
                }
            }
            found
        },
        None => false,
    }
}

} // verus!
