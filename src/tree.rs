//! The parent/child forest of a snapshot, and its depth-first walk.
//!
//! A record is a root when its ppid is 0 or names no record of the snapshot;
//! otherwise it hangs under the record of its ppid. Roots and children keep
//! the order in which their pids first appear in the snapshot, so a walk of
//! the same snapshot is always the same.
use std::collections::{HashMap, HashSet};

use vstd::prelude::*;

use crate::platform::ProcessInfo;

verus! {

broadcast use vstd::std_specs::hash::group_hash_axioms, vstd::seq_lib::group_filter_ensures;

/// A process and the pids of its children.
pub struct ProcNode {
    pub info: ProcessInfo,
    pub children: Vec<u32>,
}

/// The forest of a snapshot: the nodes by pid, and the pids of the roots.
pub struct ProcTree {
    pub nodes: HashMap<u32, ProcNode>,
    pub roots: Vec<u32>,
}

/// The pids of a snapshot in the order of their first appearance.
pub open spec fn pid_order(ps: Seq<ProcessInfo>) -> Seq<u32>
    decreases ps.len(),
{
    if ps.len() == 0 {
        seq![]
    } else {
        let prev = pid_order(ps.drop_last());
        if prev.contains(ps.last().pid) {
            prev
        } else {
            prev.push(ps.last().pid)
        }
    }
}

/// The last record of the snapshot that has this pid.
pub open spec fn latest(ps: Seq<ProcessInfo>, pid: u32) -> ProcessInfo
    decreases ps.len(),
{
    if ps.len() == 0 {
        arbitrary()
    } else if ps.last().pid == pid {
        ps.last()
    } else {
        latest(ps.drop_last(), pid)
    }
}

pub open spec fn root_in(im: Map<u32, ProcessInfo>, pid: u32) -> bool {
    im[pid].ppid == 0 || !im.contains_key(im[pid].ppid)
}

pub open spec fn child_in(im: Map<u32, ProcessInfo>, c: u32, p: u32) -> bool {
    !root_in(im, c) && im[c].ppid == p
}

pub open spec fn infos_of(m: Map<u32, ProcNode>) -> Map<u32, ProcessInfo> {
    m.map_values(|n: ProcNode| n.info)
}

/// The depth-first walk from a stack of pids (the next one last), skipping
/// pids already emitted and pids without a node, and emitting at most
/// `budget` nodes. A node's children are walked in their order.
pub open spec fn dfs(nodes: Map<u32, ProcNode>, stack: Seq<u32>, seen: Set<u32>, budget: nat) -> Seq<
    u32,
>
    decreases budget, stack.len(),
{
    if stack.len() == 0 || budget == 0 {
        seq![]
    } else {
        let p = stack.last();
        let rest = stack.drop_last();
        if seen.contains(p) || !nodes.contains_key(p) {
            dfs(nodes, rest, seen, budget)
        } else {
            seq![p] + dfs(
                nodes,
                rest + nodes[p].children@.reverse(),
                seen.insert(p),
                (budget - 1) as nat,
            )
        }
    }
}

impl ProcTree {
    pub open spec fn infos(&self) -> Map<u32, ProcessInfo> {
        infos_of(self.nodes@)
    }

    pub open spec fn is_root(&self, pid: u32) -> bool {
        root_in(self.infos(), pid)
    }

    pub open spec fn ppid_of(&self, pid: u32) -> u32 {
        self.nodes@[pid].info.ppid
    }

    pub open spec fn children_of(&self, pid: u32) -> Seq<u32> {
        self.nodes@[pid].children@
    }

    /// The pids of the walk: depth first from the roots in their order,
    /// each node before its children.
    pub open spec fn walk_order(&self) -> Seq<u32> {
        dfs(self.nodes@, self.roots@.reverse(), Set::empty(), self.nodes@.len())
    }

    /// The shape of a tree: nodes are keyed by their pid; the roots are
    /// exactly the root nodes; each other node is listed under the node of
    /// its ppid and nowhere else; no list holds a pid twice.
    pub open spec fn wf(&self) -> bool {
        &&& self.nodes@.dom().finite()
        &&& forall|p: u32| #[trigger]
            self.nodes@.contains_key(p) ==> self.nodes@[p].info.pid == p
        &&& forall|p: u32, c: u32|
            self.nodes@.contains_key(p) && #[trigger] self.children_of(p).contains(c)
                ==> self.nodes@.contains_key(c) && !self.is_root(c) && self.ppid_of(c) == p
        &&& forall|c: u32|
            self.nodes@.contains_key(c) && !#[trigger] self.is_root(c) ==> self.children_of(
                self.ppid_of(c),
            ).contains(c)
        &&& forall|r: u32| #[trigger]
            self.roots@.contains(r) ==> self.nodes@.contains_key(r) && self.is_root(r)
        &&& forall|r: u32|
            self.nodes@.contains_key(r) && #[trigger] self.is_root(r) ==> self.roots@.contains(r)
        &&& self.roots@.no_duplicates()
        &&& forall|p: u32| #[trigger]
            self.nodes@.contains_key(p) ==> self.children_of(p).no_duplicates()
    }

    /// Builds the forest of a snapshot in one pass over it. Where two
    /// records share a pid, the later one stands.
    pub fn from_processes(processes: Vec<ProcessInfo>) -> (t: ProcTree)
        ensures
            t.wf(),
            t.nodes@.dom() == pid_order(processes@).to_set(),
            forall|p: u32| #[trigger]
                t.nodes@.contains_key(p) ==> t.nodes@[p].info == latest(processes@, p),
            t.roots@ == pid_order(processes@).filter(|c: u32| root_in(t.infos(), c)),
            forall|p: u32| #[trigger]
                t.nodes@.contains_key(p) ==> t.children_of(p) == pid_order(processes@).filter(
                    |c: u32| child_in(t.infos(), c, p),
                ),
    {
        let ghost ps = processes@;
        let mut nodes: HashMap<u32, ProcNode> = HashMap::new();
        let mut order: Vec<u32> = Vec::new();
        for proc in it: processes.into_iter()
            invariant
                it.seq() == ps,
                order@ == pid_order(ps.take(it.index() as int)),
                order@.no_duplicates(),
                nodes@.dom() == order@.to_set(),
                forall|p: u32| #[trigger]
                    nodes@.contains_key(p) ==> nodes@[p].info == latest(
                        ps.take(it.index() as int),
                        p,
                    ) && nodes@[p].children@.len() == 0,
        {
            let ghost i = it.index() as int;
            let ghost pre = ps.take(i);
            assert(ps.take(i + 1).drop_last() == pre);
            assert(ps.take(i + 1).last() == proc);
            let pid = proc.pid;
            let known = nodes.contains_key(&pid);
            proof {
                order@.lemma_push_to_set_commute(pid);
                if !known {
                    assert forall|a: int, b: int|
                        0 <= a < b < order@.push(pid).len() implies order@.push(pid)[a]
                        != order@.push(pid)[b] by {
                        if b == order@.len() {
                            assert(order@[a] != pid);
                        }
                    }
                }
            }
            nodes.insert(pid, ProcNode { info: proc, children: Vec::new() });
            if !known {
                order.push(pid);
            }
        }
        assert(ps.take(ps.len() as int) == ps);
        let ghost m0 = nodes@;
        let ghost im = infos_of(m0);
        let mut roots: Vec<u32> = Vec::new();
        let mut k: usize = 0;
        while k < order.len()
            invariant
                k <= order@.len(),
                order@ == pid_order(ps),
                nodes@.dom() == m0.dom(),
                m0.dom() == order@.to_set(),
                im == infos_of(m0),
                forall|p: u32| #[trigger]
                    nodes@.contains_key(p) ==> nodes@[p].info == m0[p].info,
                roots@ == order@.take(k as int).filter(|c: u32| root_in(im, c)),
                forall|p: u32| #[trigger]
                    nodes@.contains_key(p) ==> nodes@[p].children@ == order@.take(k as int).filter(
                        |c: u32| child_in(im, c, p),
                    ),
            decreases order.len() - k,
        {
            let pid = order[k];
            assert(order@.take(k + 1) == order@.take(k as int).push(pid));
            assert(order@.to_set().contains(pid));
            let ppid = match nodes.get(&pid) {
                Some(n) => n.info.ppid,
                None => 0,
            };
            assert(ppid == im[pid].ppid);
            let ghost before = nodes@;
            if ppid != 0 && nodes.contains_key(&ppid) {
                assert(child_in(im, pid, ppid));
                match nodes.remove(&ppid) {
                    Some(mut parent) => {
                        parent.children.push(pid);
                        nodes.insert(ppid, parent);
                    },
                    None => {},
                }
                assert forall|p: u32| #[trigger]
                    nodes@.contains_key(p) implies nodes@[p].children@ == order@.take(
                    k + 1,
                ).filter(|c: u32| child_in(im, c, p)) by {
                    order@.take(k as int).lemma_filter_push(pid, |c: u32| child_in(im, c, p));
                }
                proof {
                    order@.take(k as int).lemma_filter_push(pid, |c: u32| root_in(im, c));
                }
            } else {
                assert(root_in(im, pid));
                roots.push(pid);
                assert forall|p: u32| #[trigger]
                    nodes@.contains_key(p) implies nodes@[p].children@ == order@.take(
                    k + 1,
                ).filter(|c: u32| child_in(im, c, p)) by {
                    order@.take(k as int).lemma_filter_push(pid, |c: u32| child_in(im, c, p));
                }
                proof {
                    order@.take(k as int).lemma_filter_push(pid, |c: u32| root_in(im, c));
                }
            }
            k += 1;
        }
        assert(order@.take(order@.len() as int) == order@);
        let t = ProcTree { nodes, roots };
        assert(t.infos() =~= im);
        proof {
            lemma_latest_pid(ps);
            lemma_tree_shape(&t, order@, im);
        }
        t
    }

    /// The processes of the tree, depth first: each root in order, each node
    /// before its children, children in order.
    pub fn walk(&self) -> (r: Vec<&ProcessInfo>)
        ensures
            emits(self.nodes@, r@, self.walk_order()),
    {
        let mut out: Vec<&ProcessInfo> = Vec::new();
        let mut seen: HashSet<u32> = HashSet::new();
        let mut stack: Vec<u32> = Vec::new();
        let mut j = self.roots.len();
        while j > 0
            invariant
                j <= self.roots@.len(),
                stack@ == self.roots@.subrange(j as int, self.roots@.len() as int).reverse(),
            decreases j,
        {
            j -= 1;
            stack.push(self.roots[j]);
            assert(stack@ =~= self.roots@.subrange(j as int, self.roots@.len() as int).reverse());
        }
        assert(self.roots@.subrange(0, self.roots@.len() as int) == self.roots@);
        let budget = self.nodes.len();
        self.walk_from(stack, budget, &mut seen, &mut out);
        assert(out@.subrange(0, out@.len() as int) == out@);
        out
    }

    /// Continues the walk from `stack` (the next pid last), emitting at most
    /// `budget` more nodes.
    fn walk_from<'a>(
        &'a self,
        stack: Vec<u32>,
        budget: usize,
        seen: &mut HashSet<u32>,
        out: &mut Vec<&'a ProcessInfo>,
    )
        ensures
            old(out)@.len() <= final(out)@.len(),
            final(out)@.subrange(0, old(out)@.len() as int) == old(out)@,
            emits(
                self.nodes@,
                final(out)@.subrange(old(out)@.len() as int, final(out)@.len() as int),
                dfs(self.nodes@, stack@, old(seen)@, budget as nat),
            ),
    {
        let ghost total = dfs(self.nodes@, stack@, seen@, budget as nat);
        let ghost out0 = out@;
        let ghost mut emitted: Seq<u32> = seq![];
        let mut stack = stack;
        let mut budget = budget;
        while stack.len() > 0 && budget > 0
            invariant
                out0.len() <= out@.len(),
                out@.subrange(0, out0.len() as int) == out0,
                total == emitted + dfs(self.nodes@, stack@, seen@, budget as nat),
                emits(self.nodes@, out@.subrange(out0.len() as int, out@.len() as int), emitted),
            decreases budget, stack.len(),
        {
            let ghost before = dfs(self.nodes@, stack@, seen@, budget as nat);
            let ghost out1 = out@;
            let p = match stack.pop() {
                Some(p) => p,
                None => 0,
            };
            if seen.contains(&p) {
                assert(before == dfs(self.nodes@, stack@, seen@, budget as nat));
            } else {
                match self.nodes.get(&p) {
                    None => {
                        assert(before == dfs(self.nodes@, stack@, seen@, budget as nat));
                    },
                    Some(node) => {
                        let ghost rest = stack@;
                        seen.insert(p);
                        out.push(&node.info);
                        let mut c = node.children.len();
                        while c > 0
                            invariant
                                c <= node.children@.len(),
                                stack@ == rest + node.children@.subrange(
                                    c as int,
                                    node.children@.len() as int,
                                ).reverse(),
                            decreases c,
                        {
                            c -= 1;
                            stack.push(node.children[c]);
                            assert(stack@ =~= rest + node.children@.subrange(
                                c as int,
                                node.children@.len() as int,
                            ).reverse());
                        }
                        assert(node.children@.subrange(0, node.children@.len() as int)
                            == node.children@);
                        budget -= 1;
                        assert(before == seq![p] + dfs(self.nodes@, stack@, seen@, budget as nat));
                        proof {
                            assert(out@.subrange(0, out0.len() as int) =~= out0);
                            assert(out@.subrange(out0.len() as int, out@.len() as int) =~= out1.subrange(
                                out0.len() as int,
                                out1.len() as int,
                            ).push(&node.info));
                            assert(total =~= emitted.push(p) + dfs(
                                self.nodes@,
                                stack@,
                                seen@,
                                budget as nat,
                            ));
                            emitted = emitted.push(p);
                        }
                    },
                }
            }
        }
        assert(dfs(self.nodes@, stack@, seen@, budget as nat) == Seq::<u32>::empty());
        assert(total =~= emitted);
    }
}

/// `out` holds the nodes of `pids`, in order.
pub open spec fn emits(nodes: Map<u32, ProcNode>, out: Seq<&ProcessInfo>, pids: Seq<u32>) -> bool {
    &&& out.len() == pids.len()
    &&& forall|i: int| 0 <= i < out.len() ==> *#[trigger] out[i] == nodes[pids[i]].info
}

proof fn lemma_latest_pid(ps: Seq<ProcessInfo>)
    ensures
        forall|p: u32| #[trigger] pid_order(ps).contains(p) ==> latest(ps, p).pid == p,
    decreases ps.len(),
{
    if ps.len() > 0 {
        let prev = pid_order(ps.drop_last());
        lemma_latest_pid(ps.drop_last());
        assert forall|p: u32| #[trigger] pid_order(ps).contains(p) implies latest(ps, p).pid == p by {
            if ps.last().pid != p && !prev.contains(ps.last().pid) {
                let i = choose|i: int| 0 <= i < prev.push(ps.last().pid).len() && prev.push(ps.last().pid)[i] == p;
                assert(prev[i] == p);
            }
            if ps.last().pid != p {
                assert(prev.contains(p));
                assert(latest(ps, p) == latest(ps.drop_last(), p));
            }
        }
    }
}

proof fn lemma_filter_no_dup(s: Seq<u32>, f: spec_fn(u32) -> bool)
    requires
        s.no_duplicates(),
    ensures
        s.filter(f).no_duplicates(),
    decreases s.len(),
{
    if s.len() > 0 {
        let d = s.drop_last();
        let x = s.last();
        assert(d.no_duplicates());
        lemma_filter_no_dup(d, f);
        assert(d.push(x) == s);
        d.lemma_filter_push(x, f);
        if f(x) {
            assert(!d.filter(f).contains(x)) by {
                if d.filter(f).contains(x) {
                    d.lemma_filter_contains_rev(f, x);
                    let i = choose|i: int| 0 <= i < d.len() && d[i] == x;
                    assert(s[i] == s[s.len() - 1]);
                }
            }
            let fd = d.filter(f);
            assert forall|a: int, b: int| 0 <= a < b < fd.push(x).len() implies fd.push(x)[a]
                != fd.push(x)[b] by {
                if b == fd.len() {
                    assert(fd[a] != x);
                }
            }
        }
    }
}

proof fn lemma_tree_shape(t: &ProcTree, order: Seq<u32>, im: Map<u32, ProcessInfo>)
    requires
        order.no_duplicates(),
        t.nodes@.dom() == order.to_set(),
        t.infos() == im,
        forall|p: u32| #[trigger] t.nodes@.contains_key(p) ==> t.nodes@[p].info.pid == p,
        t.roots@ == order.filter(|c: u32| root_in(im, c)),
        forall|p: u32| #[trigger]
            t.nodes@.contains_key(p) ==> t.children_of(p) == order.filter(
                |c: u32| child_in(im, c, p),
            ),
    ensures
        t.wf(),
{
    lemma_filter_no_dup(order, |c: u32| root_in(im, c));
    assert forall|p: u32| #[trigger] t.nodes@.contains_key(p) implies t.children_of(
        p,
    ).no_duplicates() by {
        lemma_filter_no_dup(order, |c: u32| child_in(im, c, p));
    }
    assert forall|p: u32, c: u32|
        t.nodes@.contains_key(p) && #[trigger] t.children_of(p).contains(c) implies t.nodes@.contains_key(
        c,
    ) && !t.is_root(c) && t.ppid_of(c) == p by {
        let f = |x: u32| child_in(im, x, p);
        order.lemma_filter_contains_rev(f, c);
        let i = choose|i: int| 0 <= i < order.filter(f).len() && order.filter(f)[i] == c;
        assert(f(order.filter(f)[i]));
    }
    assert forall|c: u32|
        t.nodes@.contains_key(c) && !#[trigger] t.is_root(c) implies t.children_of(
        t.ppid_of(c),
    ).contains(c) by {
        let p = t.ppid_of(c);
        let f = |x: u32| child_in(im, x, p);
        let i = choose|i: int| 0 <= i < order.len() && order[i] == c;
        assert(t.nodes@.contains_key(p));
        order.lemma_filter_contains(f, i);
    }
    assert forall|r: u32| #[trigger]
        t.roots@.contains(r) implies t.nodes@.contains_key(r) && t.is_root(r) by {
        let f = |x: u32| root_in(im, x);
        order.lemma_filter_contains_rev(f, r);
        let i = choose|i: int| 0 <= i < order.filter(f).len() && order.filter(f)[i] == r;
        assert(f(order.filter(f)[i]));
    }
    assert forall|r: u32|
        t.nodes@.contains_key(r) && #[trigger] t.is_root(r) implies t.roots@.contains(r) by {
        let f = |x: u32| root_in(im, x);
        let i = choose|i: int| 0 <= i < order.len() && order[i] == r;
        order.lemma_filter_contains(f, i);
    }
}

/// What the walk from a stack emits: nodes only, none seen before, none
/// twice, and each one a root, or a node whose parent was seen before or is
/// emitted before it.
proof fn lemma_dfs_parent_first(t: &ProcTree, stack: Seq<u32>, seen: Set<u32>, budget: nat)
    requires
        t.wf(),
        forall|k: int|
            0 <= k < stack.len() && t.nodes@.contains_key(#[trigger] stack[k]) ==> t.is_root(
                stack[k],
            ) || seen.contains(t.ppid_of(stack[k])),
    ensures
        forall|i: int|
            0 <= i < dfs(t.nodes@, stack, seen, budget).len() ==> t.nodes@.contains_key(
                #[trigger] dfs(t.nodes@, stack, seen, budget)[i],
            ) && !seen.contains(dfs(t.nodes@, stack, seen, budget)[i]),
        dfs(t.nodes@, stack, seen, budget).no_duplicates(),
        forall|i: int|
            0 <= i < dfs(t.nodes@, stack, seen, budget).len() ==> parent_before(
                t,
                dfs(t.nodes@, stack, seen, budget),
                seen,
                i,
            ),
    decreases budget, stack.len(),
{
    let out = dfs(t.nodes@, stack, seen, budget);
    if stack.len() == 0 || budget == 0 {
    } else {
        let p = stack.last();
        let rest = stack.drop_last();
        if seen.contains(p) || !t.nodes@.contains_key(p) {
            assert forall|k: int|
                0 <= k < rest.len() && t.nodes@.contains_key(#[trigger] rest[k]) implies t.is_root(
                rest[k],
            ) || seen.contains(t.ppid_of(rest[k])) by {
                assert(rest[k] == stack[k]);
            }
            lemma_dfs_parent_first(t, rest, seen, budget);
        } else {
            let kids = t.children_of(p).reverse();
            let next = rest + kids;
            let seen2 = seen.insert(p);
            let b2 = (budget - 1) as nat;
            assert(t.nodes@.contains_key(stack[stack.len() - 1]));
            assert forall|k: int|
                0 <= k < next.len() && t.nodes@.contains_key(#[trigger] next[k]) implies t.is_root(
                next[k],
            ) || seen2.contains(t.ppid_of(next[k])) by {
                if k < rest.len() {
                    assert(next[k] == stack[k]);
                } else {
                    let c = next[k];
                    assert(c == t.children_of(p)[t.children_of(p).len() - 1 - (k - rest.len())]);
                    assert(t.children_of(p).contains(c));
                }
            }
            lemma_dfs_parent_first(t, next, seen2, b2);
            let sub = dfs(t.nodes@, next, seen2, b2);
            assert(out == seq![p] + sub);
            assert forall|i: int| 0 <= i < out.len() implies t.nodes@.contains_key(
                #[trigger] out[i],
            ) && !seen.contains(out[i]) by {
                if i > 0 {
                    assert(out[i] == sub[i - 1]);
                }
            }
            assert forall|a: int, b: int| 0 <= a < b < out.len() implies out[a] != out[b] by {
                assert(out[b] == sub[b - 1]);
                if a > 0 {
                    assert(out[a] == sub[a - 1]);
                } else {
                    assert(!seen2.contains(sub[b - 1]));
                }
            }
            assert forall|i: int| 0 <= i < out.len() implies parent_before(t, out, seen, i) by {
                if i == 0 {
                    assert(out[0] == stack[stack.len() - 1]);
                } else {
                    let x = sub[i - 1];
                    assert(out[i] == x);
                    assert(parent_before(t, sub, seen2, i - 1));
                    if t.is_root(x) {
                    } else if t.ppid_of(x) == p {
                        assert(out[0] == t.ppid_of(out[i]));
                    } else if seen.contains(t.ppid_of(x)) {
                    } else {
                        let j = choose|j: int| 0 <= j < i - 1 && #[trigger] sub[j] == t.ppid_of(x);
                        assert(out[j + 1] == sub[j]);
                    }
                }
            }
        }
    }
}

/// The node at position `i` of a walk is a root, or its parent was seen
/// before the walk or stands earlier in it.
pub open spec fn parent_before(t: &ProcTree, out: Seq<u32>, seen: Set<u32>, i: int) -> bool {
    ||| t.is_root(out[i])
    ||| seen.contains(t.ppid_of(out[i]))
    ||| exists|j: int| 0 <= j < i && #[trigger] out[j] == t.ppid_of(out[i])
}

/// The tree invariant. Every node that is not a root has as ppid the pid of
/// a node of the tree, and that node lists it; no node is listed under two
/// parents, nor both as a root and as a child, nor twice in one list, so each
/// pid stands exactly once among the roots and the child lists; the walk
/// emits no node twice, and emits each node that is not a root strictly
/// after the node of its parent.
pub proof fn lemma_tree_invariant(t: &ProcTree)
    requires
        t.wf(),
    ensures
        forall|c: u32|
            t.nodes@.contains_key(c) && !#[trigger] t.is_root(c) ==> t.nodes@.contains_key(
                t.ppid_of(c),
            ) && t.children_of(t.ppid_of(c)).contains(c),
        forall|p: u32, q: u32, c: u32|
            t.nodes@.contains_key(p) && t.nodes@.contains_key(q) && #[trigger] t.children_of(
                p,
            ).contains(c) && #[trigger] t.children_of(q).contains(c) ==> p == q,
        forall|p: u32, c: u32|
            t.nodes@.contains_key(p) && #[trigger] t.children_of(p).contains(c)
                ==> !t.roots@.contains(c),
        t.roots@.no_duplicates(),
        forall|p: u32| #[trigger]
            t.nodes@.contains_key(p) ==> t.children_of(p).no_duplicates(),
        t.walk_order().no_duplicates(),
        forall|i: int|
            0 <= i < t.walk_order().len() ==> t.nodes@.contains_key(#[trigger] t.walk_order()[i])
                && (t.is_root(t.walk_order()[i]) || exists|j: int|
                0 <= j < i && t.walk_order()[j] == t.ppid_of(t.walk_order()[i])),
{
    let stack = t.roots@.reverse();
    assert forall|k: int|
        0 <= k < stack.len() && t.nodes@.contains_key(#[trigger] stack[k]) implies t.is_root(
        stack[k],
    ) || Set::<u32>::empty().contains(t.ppid_of(stack[k])) by {
        assert(stack[k] == t.roots@[t.roots@.len() - 1 - k]);
        assert(t.roots@.contains(stack[k]));
    }
    lemma_dfs_parent_first(t, stack, Set::empty(), t.nodes@.len());
    let w = t.walk_order();
    assert forall|i: int| 0 <= i < w.len() implies t.nodes@.contains_key(#[trigger] w[i]) && (
    t.is_root(w[i]) || exists|j: int| 0 <= j < i && w[j] == t.ppid_of(w[i])) by {
        assert(parent_before(t, w, Set::empty(), i));
    }
}

proof fn lemma_dfs_all_seen(nodes: Map<u32, ProcNode>, stack: Seq<u32>, seen: Set<u32>, budget: nat)
    requires
        forall|x: u32| #[trigger] nodes.contains_key(x) ==> seen.contains(x),
    ensures
        dfs(nodes, stack, seen, budget) == Seq::<u32>::empty(),
    decreases stack.len(),
{
    if stack.len() > 0 && budget > 0 {
        lemma_dfs_all_seen(nodes, stack.drop_last(), seen, budget);
    }
}

/// A budget as large as the number of nodes not seen yet never cuts the
/// walk short: a larger one gives the same walk.
proof fn lemma_dfs_budget_suffices(
    nodes: Map<u32, ProcNode>,
    stack: Seq<u32>,
    seen: Set<u32>,
    budget: nat,
    larger: nat,
)
    requires
        nodes.dom().finite(),
        nodes.dom().difference(seen).len() <= budget <= larger,
    ensures
        dfs(nodes, stack, seen, budget) == dfs(nodes, stack, seen, larger),
    decreases budget, stack.len(),
{
    broadcast use vstd::set::group_set_axioms;

    let unseen = nodes.dom().difference(seen);
    if stack.len() == 0 {
    } else if budget == 0 {
        assert forall|x: u32| #[trigger] nodes.contains_key(x) implies seen.contains(x) by {
            if !seen.contains(x) {
                assert(unseen.contains(x));
            }
        }
        lemma_dfs_all_seen(nodes, stack, seen, larger);
    } else {
        let p = stack.last();
        let rest = stack.drop_last();
        if seen.contains(p) || !nodes.contains_key(p) {
            lemma_dfs_budget_suffices(nodes, rest, seen, budget, larger);
        } else {
            assert(nodes.dom().difference(seen.insert(p)) =~= unseen.remove(p));
            lemma_dfs_budget_suffices(
                nodes,
                rest + nodes[p].children@.reverse(),
                seen.insert(p),
                (budget - 1) as nat,
                (larger - 1) as nat,
            );
        }
    }
}

/// The budget of the walk never cuts it short: any budget at least the
/// number of nodes gives the same walk.
pub proof fn lemma_walk_budget_suffices(t: &ProcTree, larger: nat)
    requires
        t.wf(),
        t.nodes@.len() <= larger,
    ensures
        t.walk_order() == dfs(t.nodes@, t.roots@.reverse(), Set::empty(), larger),
{
    broadcast use vstd::set::group_set_axioms;

    assert(t.nodes@.dom().difference(Set::empty()) =~= t.nodes@.dom());
    lemma_dfs_budget_suffices(t.nodes@, t.roots@.reverse(), Set::empty(), t.nodes@.len(), larger);
}

/// With enough budget, every pid of the stack that has a node is emitted
/// or was seen before; and every child of an emitted node is emitted or was
/// seen before.
proof fn lemma_dfs_complete(t: &ProcTree, stack: Seq<u32>, seen: Set<u32>, budget: nat)
    requires
        t.nodes@.dom().finite(),
        t.nodes@.dom().difference(seen).len() <= budget,
    ensures
        forall|k: int|
            0 <= k < stack.len() && t.nodes@.contains_key(#[trigger] stack[k]) ==> seen.contains(
                stack[k],
            ) || dfs(t.nodes@, stack, seen, budget).contains(stack[k]),
        forall|i: int, c: u32|
            0 <= i < dfs(t.nodes@, stack, seen, budget).len() && #[trigger] t.children_of(
                dfs(t.nodes@, stack, seen, budget)[i],
            ).contains(c) && t.nodes@.contains_key(c) ==> seen.contains(c) || dfs(
                t.nodes@,
                stack,
                seen,
                budget,
            ).contains(c),
    decreases budget, stack.len(),
{
    broadcast use vstd::set::group_set_axioms;

    let nodes = t.nodes@;
    let out = dfs(nodes, stack, seen, budget);
    let unseen = nodes.dom().difference(seen);
    if stack.len() == 0 {
    } else if budget == 0 {
        assert forall|x: u32| #[trigger] nodes.contains_key(x) implies seen.contains(x) by {
            if !seen.contains(x) {
                assert(unseen.contains(x));
            }
        }
    } else {
        let p = stack.last();
        let rest = stack.drop_last();
        if seen.contains(p) || !nodes.contains_key(p) {
            lemma_dfs_complete(t, rest, seen, budget);
            assert(out == dfs(nodes, rest, seen, budget));
            assert forall|k: int|
                0 <= k < stack.len() && nodes.contains_key(#[trigger] stack[k]) implies seen.contains(
                stack[k],
            ) || out.contains(stack[k]) by {
                if k < rest.len() {
                    assert(stack[k] == rest[k]);
                }
            }
        } else {
            let kids = t.children_of(p).reverse();
            let next = rest + kids;
            let seen2 = seen.insert(p);
            let b2 = (budget - 1) as nat;
            assert(nodes.dom().difference(seen2) =~= unseen.remove(p));
            lemma_dfs_complete(t, next, seen2, b2);
            let sub = dfs(nodes, next, seen2, b2);
            assert(out == seq![p] + sub);
            assert(out[0] == p);
            assert forall|x: u32| sub.contains(x) implies out.contains(x) by {
                let j = choose|j: int| 0 <= j < sub.len() && sub[j] == x;
                assert(out[j + 1] == x);
            }
            assert forall|k: int|
                0 <= k < stack.len() && nodes.contains_key(#[trigger] stack[k]) implies seen.contains(
                stack[k],
            ) || out.contains(stack[k]) by {
                if k < rest.len() {
                    assert(stack[k] == next[k]);
                } else {
                    assert(stack[k] == p);
                }
            }
            assert forall|i: int, c: u32|
                0 <= i < out.len() && #[trigger] t.children_of(out[i]).contains(c)
                    && nodes.contains_key(c) implies seen.contains(c) || out.contains(c) by {
                if i == 0 {
                    let m = choose|m: int| 0 <= m < t.children_of(p).len() && t.children_of(p)[m] == c;
                    let k = rest.len() + (t.children_of(p).len() - 1 - m);
                    assert(next[k] == c);
                } else {
                    assert(out[i] == sub[i - 1]);
                }
            }
        }
    }
}

/// `x` is a node whose chain of parents reaches a root within `k` steps.
pub open spec fn rooted(t: &ProcTree, x: u32, k: nat) -> bool
    decreases k,
{
    t.nodes@.contains_key(x) && (t.is_root(x) || (k > 0 && rooted(t, t.ppid_of(x), (k - 1) as nat)))
}

/// The walk misses no node whose chain of parents reaches a root.
pub proof fn lemma_walk_complete(t: &ProcTree, x: u32, k: nat)
    requires
        t.wf(),
        rooted(t, x, k),
    ensures
        t.walk_order().contains(x),
    decreases k,
{
    broadcast use vstd::set::group_set_axioms;

    let stack = t.roots@.reverse();
    assert(t.nodes@.dom().difference(Set::empty()) =~= t.nodes@.dom());
    lemma_dfs_complete(t, stack, Set::empty(), t.nodes@.len());
    let w = t.walk_order();
    if t.is_root(x) {
        assert(t.roots@.contains(x));
        let j = choose|j: int| 0 <= j < t.roots@.len() && t.roots@[j] == x;
        assert(stack[t.roots@.len() - 1 - j] == x);
    } else {
        let p = t.ppid_of(x);
        lemma_walk_complete(t, p, (k - 1) as nat);
        let i = choose|i: int| 0 <= i < w.len() && w[i] == p;
        assert(t.children_of(w[i]).contains(x));
    }
}

} // verus!
