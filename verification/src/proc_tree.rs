//! The process tree: processes arranged under their parents, annotated
//! with their network connections, optionally pruned to the processes that
//! own a port in a range.
use vstd::prelude::*;

use crate::proc_net::{conns_model, conns_of, ConnModel, NetConn, NetEntryModel, NetMap};

verus! {

/// A running process. CPU and memory use are percentages in tenths, the
/// precision at which they are shown.
#[derive(Debug, Clone)]
pub struct ProcessInfo {
    pub pid: u32,
    pub ppid: u32,
    pub name: String,
    pub user: String,
    pub cpu_tenths: u32,
    pub mem_tenths: u32,
}

impl ProcessInfo {
    /// A copy of this record.
    pub fn duplicate(&self) -> (r: ProcessInfo)
        ensures
            r == *self,
    {
        ProcessInfo {
            pid: self.pid,
            ppid: self.ppid,
            name: self.name.clone(),
            user: self.user.clone(),
            cpu_tenths: self.cpu_tenths,
            mem_tenths: self.mem_tenths,
        }
    }
}

/// A node in the process tree.
#[derive(Debug)]
pub struct TreeNode {
    pub info: ProcessInfo,
    pub ports: Vec<NetConn>,
    pub children: Vec<TreeNode>,
    pub depth: usize,
}

// ---------------------------------------------------------------------
// The process graph
// ---------------------------------------------------------------------

/// Whether some process has the id `x`.
pub open spec fn pid_at(procs: Seq<ProcessInfo>, x: u32) -> bool {
    exists|i: int| 0 <= i < procs.len() && (#[trigger] procs[i]).pid == x
}

/// Whether no two processes share an id.
pub open spec fn distinct_pids(procs: Seq<ProcessInfo>) -> bool {
    forall|i: int, j: int| 0 <= i < j < procs.len() ==> procs[i].pid != procs[j].pid
}

/// Whether `p` starts a tree: it has no parent, or its parent is not among
/// the processes.
pub open spec fn is_root(procs: Seq<ProcessInfo>, p: ProcessInfo) -> bool {
    p.ppid == 0 || !pid_at(procs, p.ppid)
}

/// Whether `r` is the id of a root process.
pub open spec fn root_pid(procs: Seq<ProcessInfo>, r: u32) -> bool {
    exists|i: int| 0 <= i < procs.len() && (#[trigger] procs[i]).pid == r && is_root(procs, procs[i])
}

/// Whether `c` is the id of a child of `x` (a process whose parent is `x`,
/// `x` not being 0).
pub open spec fn is_child(procs: Seq<ProcessInfo>, x: u32, c: u32) -> bool {
    x != 0 && exists|i: int|
        0 <= i < procs.len() && (#[trigger] procs[i]).pid == c && procs[i].ppid == x
}

/// Whether some connection has its local or remote port in `range`.
pub open spec fn has_port_in(conns: Seq<ConnModel>, range: (u16, u16)) -> bool {
    exists|i: int|
        0 <= i < conns.len() && ((range.0 <= (#[trigger] conns[i]).2 && conns[i].2 <= range.1) || (
        range.0 <= conns[i].4 && conns[i].4 <= range.1))
}

/// Whether `path` goes down the tree from its first process to a process
/// with a port in `range`.
pub open spec fn port_path(
    procs: Seq<ProcessInfo>,
    net: Seq<NetEntryModel>,
    range: (u16, u16),
    path: Seq<u32>,
) -> bool {
    &&& path.len() > 0
    &&& forall|k: int| 0 <= k < path.len() - 1 ==> is_child(procs, #[trigger] path[k], path[k + 1])
    &&& has_port_in(conns_of(net, path.last()), range)
}

/// Whether process `x` or one of its descendants has a port in `range`.
pub open spec fn survives(
    procs: Seq<ProcessInfo>,
    net: Seq<NetEntryModel>,
    range: (u16, u16),
    x: u32,
) -> bool {
    exists|path: Seq<u32>| path.len() > 0 && path[0] == x && #[trigger] port_path(procs, net, range, path)
}

/// Whether process `c` belongs in the tree: always without a port filter,
/// else when it or a descendant has a port in the range.
pub open spec fn kept(
    procs: Seq<ProcessInfo>,
    net: Seq<NetEntryModel>,
    filter: Option<(u16, u16)>,
    c: u32,
) -> bool {
    match filter {
        None => true,
        Some(range) => survives(procs, net, range, c),
    }
}

/// Whether the nodes' process ids increase strictly.
pub open spec fn increasing(nodes: Seq<TreeNode>) -> bool {
    forall|i: int, j: int| 0 <= i < j < nodes.len() ==> nodes[i].info.pid < nodes[j].info.pid
}

/// Node `n` at depth `depth` is the subtree of its process: the process
/// record, its connections, and below it, in order of id, the subtrees of
/// exactly those children that are kept.
pub open spec fn node_ok(
    procs: Seq<ProcessInfo>,
    net: Seq<NetEntryModel>,
    filter: Option<(u16, u16)>,
    n: TreeNode,
    depth: int,
) -> bool
    decreases n,
{
    &&& exists|i: int| 0 <= i < procs.len() && procs[i] == n.info
    &&& conns_model(n.ports@) == conns_of(net, n.info.pid)
    &&& n.depth == depth
    &&& increasing(n.children@)
    &&& forall|i: int|
        0 <= i < n.children@.len() ==> is_child(procs, n.info.pid, (#[trigger] n.children@[i]).info.pid)
            && kept(procs, net, filter, n.children@[i].info.pid)
    &&& forall|c: u32|
        is_child(procs, n.info.pid, c) && kept(procs, net, filter, c) ==> exists|i: int|
            0 <= i < n.children@.len() && (#[trigger] n.children@[i]).info.pid == c
    &&& forall|i: int|
        0 <= i < n.children@.len() ==> node_ok(procs, net, filter, #[trigger] n.children@[i], depth + 1)
}

/// `forest` is the process forest: in order of id, the trees of exactly
/// those root processes that are kept.
pub open spec fn forest_ok(
    procs: Seq<ProcessInfo>,
    net: Seq<NetEntryModel>,
    filter: Option<(u16, u16)>,
    forest: Seq<TreeNode>,
) -> bool {
    &&& increasing(forest)
    &&& forall|i: int|
        0 <= i < forest.len() ==> root_pid(procs, (#[trigger] forest[i]).info.pid) && kept(
            procs,
            net,
            filter,
            forest[i].info.pid,
        ) && node_ok(procs, net, filter, forest[i], 0)
    &&& forall|r: u32|
        root_pid(procs, r) && kept(procs, net, filter, r) ==> exists|i: int|
            0 <= i < forest.len() && (#[trigger] forest[i]).info.pid == r
}

// ---------------------------------------------------------------------
// Building
// ---------------------------------------------------------------------

/// Whether the ids increase strictly.
pub open spec fn increasing_ids(v: Seq<u32>) -> bool {
    forall|i: int, j: int| 0 <= i < j < v.len() ==> v[i] < v[j]
}

/// Inserts `x` into the increasing list `v` at its place.
pub fn insert_sorted(v: &mut Vec<u32>, x: u32)
    requires
        increasing_ids(old(v)@),
        !old(v)@.contains(x),
    ensures
        increasing_ids(final(v)@),
        forall|y: u32| final(v)@.contains(y) <==> (old(v)@.contains(y) || y == x),
{
    let mut p: usize = 0;
    while p < v.len() && v[p] < x
        invariant
            p <= v.len(),
            forall|i: int| 0 <= i < p ==> v@[i] < x,
        decreases v.len() - p,
    {
        p = p + 1;
    }
    let ghost old_v = v@;
    proof {
        if p < old_v.len() {
            assert(old_v[p as int] != x);
            assert(old_v[p as int] > x);
        }
    }
    v.insert(p, x);
    proof {
        assert(v@ == old_v.insert(p as int, x));
        assert forall|i: int, j: int| 0 <= i < j < v@.len() implies v@[i] < v@[j] by {
            if j < p {
                assert(v@[i] == old_v[i] && v@[j] == old_v[j]);
            } else if j == p {
                assert(v@[i] == old_v[i]);
            } else if i < p {
                assert(v@[i] == old_v[i] && v@[j] == old_v[j - 1]);
                assert(old_v[p as int] <= old_v[j - 1]);
            } else if i == p {
                assert(v@[j] == old_v[j - 1]);
                assert(old_v[p as int] <= old_v[j - 1]);
            } else {
                assert(v@[i] == old_v[i - 1] && v@[j] == old_v[j - 1]);
            }
        }
        assert forall|y: u32| v@.contains(y) <==> (old_v.contains(y) || y == x) by {
            if v@.contains(y) {
                let i = choose|i: int| 0 <= i < v@.len() && v@[i] == y;
                if i < p {
                    assert(v@[i] == old_v[i]);
                } else if i > p {
                    assert(v@[i] == old_v[i - 1]);
                }
            }
            if old_v.contains(y) {
                let i = choose|i: int| 0 <= i < old_v.len() && old_v[i] == y;
                if i < p {
                    assert(v@[i] == old_v[i]);
                } else {
                    assert(v@[i + 1] == old_v[i]);
                }
            }
            if y == x {
                assert(v@[p as int] == x);
            }
        }
    }
}

/// Index of the process with id `x`, if any.
fn find_proc(procs: &[ProcessInfo], x: u32) -> (r: Option<usize>)
    ensures
        match r {
            Some(i) => i < procs.len() && procs@[i as int].pid == x,
            None => !pid_at(procs@, x),
        },
{
    let mut i: usize = 0;
    while i < procs.len()
        invariant
            i <= procs.len(),
            forall|j: int| 0 <= j < i ==> (#[trigger] procs@[j]).pid != x,
        decreases procs.len() - i,
    {
        if procs[i].pid == x {
            return Some(i);
        }
        i = i + 1;
    }
    None
}

/// The ids of the root processes, increasing.
fn root_pids(procs: &[ProcessInfo]) -> (r: Vec<u32>)
    requires
        distinct_pids(procs@),
    ensures
        increasing_ids(r@),
        forall|x: u32| r@.contains(x) <==> root_pid(procs@, x),
{
    let mut r: Vec<u32> = Vec::new();
    let mut i: usize = 0;
    while i < procs.len()
        invariant
            i <= procs.len(),
            distinct_pids(procs@),
            increasing_ids(r@),
            forall|x: u32|
                r@.contains(x) <==> exists|j: int|
                    0 <= j < i && (#[trigger] procs@[j]).pid == x && is_root(procs@, procs@[j]),
        decreases procs.len() - i,
    {
        let p = &procs[i];
        let root = p.ppid == 0 || find_proc(procs, p.ppid).is_none();
        if root {
            proof {
                if r@.contains(p.pid) {
                    let j = choose|j: int|
                        0 <= j < i && (#[trigger] procs@[j]).pid == p.pid && is_root(procs@, procs@[j]);
                    assert(procs@[j].pid != procs@[i as int].pid);
                }
            }
            insert_sorted(&mut r, p.pid);
        }
        proof {
            assert forall|x: u32|
                r@.contains(x) <==> exists|j: int|
                    0 <= j < i + 1 && (#[trigger] procs@[j]).pid == x && is_root(procs@, procs@[j]) by {
                if exists|j: int|
                    0 <= j < i + 1 && (#[trigger] procs@[j]).pid == x && is_root(procs@, procs@[j]) {
                    let j = choose|j: int|
                        0 <= j < i + 1 && (#[trigger] procs@[j]).pid == x && is_root(procs@, procs@[j]);
                    if j == i {
                        assert(root);
                    }
                }
            }
        }
        i = i + 1;
    }
    r
}

/// The ids of the children of `x`, increasing.
fn child_pids(procs: &[ProcessInfo], x: u32) -> (r: Vec<u32>)
    requires
        distinct_pids(procs@),
    ensures
        increasing_ids(r@),
        forall|c: u32| r@.contains(c) <==> is_child(procs@, x, c),
{
    let mut r: Vec<u32> = Vec::new();
    if x == 0 {
        return r;
    }
    let mut i: usize = 0;
    while i < procs.len()
        invariant
            i <= procs.len(),
            x != 0,
            distinct_pids(procs@),
            increasing_ids(r@),
            forall|c: u32|
                r@.contains(c) <==> exists|j: int|
                    0 <= j < i && (#[trigger] procs@[j]).pid == c && procs@[j].ppid == x,
        decreases procs.len() - i,
    {
        let p = &procs[i];
        if p.ppid == x {
            proof {
                if r@.contains(p.pid) {
                    let j = choose|j: int|
                        0 <= j < i && (#[trigger] procs@[j]).pid == p.pid && procs@[j].ppid == x;
                    assert(procs@[j].pid != procs@[i as int].pid);
                }
            }
            insert_sorted(&mut r, p.pid);
        }
        proof {
            assert forall|c: u32|
                r@.contains(c) <==> exists|j: int|
                    0 <= j < i + 1 && (#[trigger] procs@[j]).pid == c && procs@[j].ppid == x by {
                if exists|j: int|
                    0 <= j < i + 1 && (#[trigger] procs@[j]).pid == c && procs@[j].ppid == x {
                    let j = choose|j: int|
                        0 <= j < i + 1 && (#[trigger] procs@[j]).pid == c && procs@[j].ppid == x;
                    if j == i {
                        assert(p.ppid == x);
                    }
                }
            }
        }
        i = i + 1;
    }
    r
}

/// `anc` is a path of process ids from a root down to a process.
pub open spec fn chain_ok(procs: Seq<ProcessInfo>, anc: Seq<u32>) -> bool {
    &&& anc.len() > 0
    &&& anc.no_duplicates()
    &&& forall|k: int| 0 <= k < anc.len() ==> pid_at(procs, #[trigger] anc[k])
    &&& root_pid(procs, anc[0])
    &&& forall|k: int| 0 <= k < anc.len() - 1 ==> is_child(procs, #[trigger] anc[k], anc[k + 1])
}

/// A child of the last process of a path is not already on the path.
proof fn lemma_child_fresh(procs: Seq<ProcessInfo>, anc: Seq<u32>, c: u32)
    requires
        distinct_pids(procs),
        chain_ok(procs, anc),
        is_child(procs, anc.last(), c),
    ensures
        !anc.contains(c),
{
    let i = choose|i: int| 0 <= i < procs.len() && (#[trigger] procs[i]).pid == c && procs[i].ppid == anc.last();
    if anc.contains(c) {
        let k = choose|k: int| 0 <= k < anc.len() && anc[k] == c;
        if k == 0 {
            let j = choose|j: int| 0 <= j < procs.len() && (#[trigger] procs[j]).pid == anc[0] && is_root(procs, procs[j]);
            if j != i {
                if j < i {
                    assert(procs[j].pid != procs[i].pid);
                } else {
                    assert(procs[i].pid != procs[j].pid);
                }
            }
            assert(pid_at(procs, anc[anc.len() - 1]));
        } else {
            assert(is_child(procs, anc[k - 1], anc[k]));
            let j = choose|j: int| 0 <= j < procs.len() && (#[trigger] procs[j]).pid == anc[k] && procs[j].ppid == anc[k - 1];
            if j != i {
                if j < i {
                    assert(procs[j].pid != procs[i].pid);
                } else {
                    assert(procs[i].pid != procs[j].pid);
                }
            }
            assert(anc[k - 1] == anc[anc.len() - 1]);
        }
    }
}

/// A path of distinct processes is no longer than the list of processes.
proof fn lemma_chain_bound(procs: Seq<ProcessInfo>, anc: Seq<u32>)
    requires
        chain_ok(procs, anc),
    ensures
        anc.len() <= procs.len(),
{
    let ids = procs.map_values(|p: ProcessInfo| p.pid);
    assert forall|x: u32| anc.to_set().contains(x) implies ids.to_set().contains(x) by {
        let k = choose|k: int| 0 <= k < anc.len() && anc[k] == x;
        assert(pid_at(procs, anc[k]));
        let i = choose|i: int| 0 <= i < procs.len() && (#[trigger] procs[i]).pid == x;
        assert(ids[i] == x);
    }
    anc.unique_seq_to_set();
    ids.lemma_cardinality_of_set();
    vstd::seq_lib::seq_to_set_is_finite(ids);
    vstd::set_lib::lemma_len_subset(anc.to_set(), ids.to_set());
}

/// Builds the subtree of process `pid` at `depth`, reached by the path `anc`.
fn build_subtree(
    procs: &[ProcessInfo],
    net: &NetMap,
    pid: u32,
    depth: usize,
    Ghost(anc): Ghost<Seq<u32>>,
) -> (r: TreeNode)
    requires
        distinct_pids(procs@),
        chain_ok(procs@, anc),
        anc.last() == pid,
        anc.len() == depth + 1,
    ensures
        node_ok(procs@, net.model(), None, r, depth as int),
        r.info.pid == pid,
    decreases procs.len() - depth,
{
    proof {
        lemma_chain_bound(procs@, anc);
    }
    let idx = find_proc(procs, pid);
    let i = match idx {
        Some(i) => i,
        None => {
            proof {
                assert(pid_at(procs@, anc[anc.len() - 1]));
            }
            0
        },
    };
    let info = procs[i].duplicate();
    let ports = net.conns(pid);
    let kids = child_pids(procs, pid);
    let mut children: Vec<TreeNode> = Vec::new();
    let mut k: usize = 0;
    while k < kids.len()
        invariant
            k <= kids.len(),
            distinct_pids(procs@),
            chain_ok(procs@, anc),
            anc.last() == pid,
            anc.len() == depth + 1,
            depth + 1 <= procs.len(),
            increasing_ids(kids@),
            forall|c: u32| kids@.contains(c) <==> is_child(procs@, pid, c),
            children@.len() == k,
            forall|m: int| 0 <= m < k ==> (#[trigger] children@[m]).info.pid == kids@[m],
            forall|m: int|
                0 <= m < k ==> node_ok(procs@, net.model(), None, #[trigger] children@[m], depth + 1),
        decreases kids.len() - k,
    {
        let c = kids[k];
        assert(kids@.contains(c));
        let ghost anc2 = anc.push(c);
        proof {
            lemma_child_fresh(procs@, anc, c);
            assert forall|a: int, b: int| 0 <= a < b < anc2.len() implies anc2[a] != anc2[b] by {
                if b == anc.len() {
                    assert(anc2[a] == anc[a]);
                    assert(anc.contains(anc[a]));
                }
            }
            assert(anc2.no_duplicates());
            assert forall|m: int| 0 <= m < anc2.len() implies pid_at(procs@, #[trigger] anc2[m]) by {
                if m == anc.len() {
                    let j = choose|j: int| 0 <= j < procs@.len() && (#[trigger] procs@[j]).pid == c && procs@[j].ppid == pid;
                } else {
                    assert(anc2[m] == anc[m]);
                }
            }
            assert forall|m: int| 0 <= m < anc2.len() - 1 implies is_child(procs@, #[trigger] anc2[m], anc2[m + 1]) by {
                if m == anc.len() - 1 {
                } else {
                    assert(anc2[m] == anc[m] && anc2[m + 1] == anc[m + 1]);
                }
            }
            assert(chain_ok(procs@, anc2));
            lemma_chain_bound(procs@, anc2);
        }
        let child = build_subtree(procs, net, c, depth + 1, Ghost(anc2));
        children.push(child);
        k = k + 1;
    }
    let r = TreeNode { info, ports, children, depth };
    proof {
        assert(procs@[i as int] == r.info);
        assert forall|a: int, b: int| 0 <= a < b < r.children@.len() implies r.children@[a].info.pid < r.children@[b].info.pid by {
            assert(kids@[a] < kids@[b]);
        }
        assert forall|m: int| 0 <= m < r.children@.len() implies is_child(procs@, r.info.pid, (#[trigger] r.children@[m]).info.pid)
            && kept(procs@, net.model(), None, r.children@[m].info.pid) by {
            assert(kids@.contains(kids@[m]));
        }
        assert forall|c: u32| is_child(procs@, r.info.pid, c) && kept(procs@, net.model(), None, c) implies exists|m: int|
            0 <= m < r.children@.len() && (#[trigger] r.children@[m]).info.pid == c by {
            assert(kids@.contains(c));
            let m = choose|m: int| 0 <= m < kids@.len() && kids@[m] == c;
            assert(r.children@[m].info.pid == c);
        }
    }
    r
}

// ---------------------------------------------------------------------
// Pruning
// ---------------------------------------------------------------------

/// Whether some connection has its local or remote port in `range`.
pub fn has_port_in_range(ports: &Vec<NetConn>, range: (u16, u16)) -> (r: bool)
    ensures
        r == has_port_in(conns_model(ports@), range),
{
    let ghost cm = conns_model(ports@);
    let mut i: usize = 0;
    while i < ports.len()
        invariant
            i <= ports.len(),
            cm == conns_model(ports@),
            forall|j: int|
                0 <= j < i ==> !((range.0 <= (#[trigger] cm[j]).2 && cm[j].2 <= range.1) || (range.0
                    <= cm[j].4 && cm[j].4 <= range.1)),
        decreases ports.len() - i,
    {
        let c = &ports[i];
        assert(cm[i as int] == c.model());
        if (c.local_port >= range.0 && c.local_port <= range.1) || (c.remote_port >= range.0
            && c.remote_port <= range.1) {
            return true;
        }
        i = i + 1;
    }
    false
}

/// A process survives the pruning exactly when it has a port in the range
/// or one of its children survives.
proof fn lemma_survives_unfold(
    procs: Seq<ProcessInfo>,
    net: Seq<NetEntryModel>,
    range: (u16, u16),
    x: u32,
)
    ensures
        survives(procs, net, range, x) <==> (has_port_in(conns_of(net, x), range) || exists|c: u32|
            is_child(procs, x, c) && #[trigger] survives(procs, net, range, c)),
{
    if survives(procs, net, range, x) {
        let path = choose|path: Seq<u32>| path.len() > 0 && path[0] == x && #[trigger] port_path(procs, net, range, path);
        if path.len() > 1 {
            let c = path[1];
            let rest = path.skip(1);
            assert forall|k: int| 0 <= k < rest.len() - 1 implies is_child(procs, #[trigger] rest[k], rest[k + 1]) by {
                assert(rest[k] == path[k + 1] && rest[k + 1] == path[k + 2]);
                assert(is_child(procs, path[k + 1], path[k + 2]));
            }
            assert(rest.last() == path.last());
            assert(port_path(procs, net, range, rest));
            assert(is_child(procs, path[0], path[1]));
            assert(survives(procs, net, range, c));
        }
    }
    if has_port_in(conns_of(net, x), range) {
        let path = seq![x];
        assert(port_path(procs, net, range, path));
    }
    if exists|c: u32| is_child(procs, x, c) && #[trigger] survives(procs, net, range, c) {
        let c = choose|c: u32| is_child(procs, x, c) && #[trigger] survives(procs, net, range, c);
        let p = choose|p: Seq<u32>| p.len() > 0 && p[0] == c && #[trigger] port_path(procs, net, range, p);
        let path = seq![x] + p;
        assert forall|k: int| 0 <= k < path.len() - 1 implies is_child(procs, #[trigger] path[k], path[k + 1]) by {
            if k == 0 {
                assert(path[1] == p[0]);
            } else {
                assert(path[k] == p[k - 1] && path[k + 1] == p[k]);
                assert(is_child(procs, p[k - 1], p[k]));
            }
        }
        assert(path.last() == p.last());
        assert(port_path(procs, net, range, path));
    }
}

/// Whether one of the first `k` nodes has the id `x`.
pub open spec fn index_below(nodes: Seq<TreeNode>, k: int, x: u32) -> bool {
    exists|j: int| 0 <= j < k && nodes[j].info.pid == x
}

/// The kept children `kc` are the children of `n` that survive, in order.
pub open spec fn kept_children_ok(
    procs: Seq<ProcessInfo>,
    net: Seq<NetEntryModel>,
    range: (u16, u16),
    orig: Seq<TreeNode>,
    k: int,
    kc: Seq<TreeNode>,
    d: int,
) -> bool {
    &&& increasing(kc)
    &&& forall|m: int| 0 <= m < kc.len() ==> node_ok(procs, net, Some(range), #[trigger] kc[m], d)
    &&& forall|m: int|
        0 <= m < kc.len() ==> survives(procs, net, range, (#[trigger] kc[m]).info.pid) && index_below(
            orig,
            k,
            kc[m].info.pid,
        )
    &&& forall|j: int|
        0 <= j < k && survives(procs, net, range, (#[trigger] orig[j]).info.pid) ==> exists|m: int|
            0 <= m < kc.len() && (#[trigger] kc[m]).info.pid == orig[j].info.pid
}

proof fn lemma_kept_push(
    procs: Seq<ProcessInfo>,
    net: Seq<NetEntryModel>,
    range: (u16, u16),
    orig: Seq<TreeNode>,
    k: int,
    kc: Seq<TreeNode>,
    d: int,
    m: TreeNode,
)
    requires
        0 <= k < orig.len(),
        increasing(orig),
        kept_children_ok(procs, net, range, orig, k, kc, d),
        survives(procs, net, range, orig[k].info.pid),
        m.info.pid == orig[k].info.pid,
        node_ok(procs, net, Some(range), m, d),
    ensures
        kept_children_ok(procs, net, range, orig, k + 1, kc.push(m), d),
{
    let n = kc.push(m);
    assert forall|a: int, b: int| 0 <= a < b < n.len() implies n[a].info.pid < n[b].info.pid by {
        if b == kc.len() {
            assert(n[a] == kc[a]);
            assert(index_below(orig, k, kc[a].info.pid));
            let j = choose|j: int| 0 <= j < k && orig[j].info.pid == kc[a].info.pid;
        } else {
            assert(n[a] == kc[a] && n[b] == kc[b]);
        }
    }
    assert forall|a: int| 0 <= a < n.len() implies node_ok(procs, net, Some(range), #[trigger] n[a], d) by {
        if a < kc.len() {
            assert(n[a] == kc[a]);
        }
    }
    assert forall|a: int| 0 <= a < n.len() implies survives(procs, net, range, (#[trigger] n[a]).info.pid)
        && index_below(orig, k + 1, n[a].info.pid) by {
        if a < kc.len() {
            assert(n[a] == kc[a]);
            assert(index_below(orig, k, kc[a].info.pid));
            let j = choose|j: int| 0 <= j < k && orig[j].info.pid == kc[a].info.pid;
            assert(orig[j].info.pid == n[a].info.pid);
        } else {
            assert(orig[k].info.pid == n[a].info.pid);
        }
    }
    assert forall|j: int|
        0 <= j < k + 1 && survives(procs, net, range, (#[trigger] orig[j]).info.pid) implies exists|
            a: int,
        | 0 <= a < n.len() && (#[trigger] n[a]).info.pid == orig[j].info.pid by {
        if j < k {
            let a = choose|a: int| 0 <= a < kc.len() && (#[trigger] kc[a]).info.pid == orig[j].info.pid;
            assert(n[a] == kc[a]);
        } else {
            assert(n[kc.len() as int].info.pid == orig[j].info.pid);
        }
    }
}

proof fn lemma_kept_skip(
    procs: Seq<ProcessInfo>,
    net: Seq<NetEntryModel>,
    range: (u16, u16),
    orig: Seq<TreeNode>,
    k: int,
    kc: Seq<TreeNode>,
    d: int,
)
    requires
        0 <= k < orig.len(),
        kept_children_ok(procs, net, range, orig, k, kc, d),
        !survives(procs, net, range, orig[k].info.pid),
    ensures
        kept_children_ok(procs, net, range, orig, k + 1, kc, d),
{
    assert forall|a: int| 0 <= a < kc.len() implies survives(procs, net, range, (#[trigger] kc[a]).info.pid)
        && index_below(orig, k + 1, kc[a].info.pid) by {
        assert(index_below(orig, k, kc[a].info.pid));
        let j = choose|j: int| 0 <= j < k && orig[j].info.pid == kc[a].info.pid;
        assert(orig[j].info.pid == kc[a].info.pid);
    }
    assert forall|j: int|
        0 <= j < k + 1 && survives(procs, net, range, (#[trigger] orig[j]).info.pid) implies exists|
            a: int,
        | 0 <= a < kc.len() && (#[trigger] kc[a]).info.pid == orig[j].info.pid by {
        if j == k {
            assert(!survives(procs, net, range, orig[k].info.pid));
        }
    }
}

/// With all children looked at, the node survives exactly when it has a
/// port in the range or some child was kept, and the kept node is the
/// pruned subtree.
proof fn lemma_prune_result(
    procs: Seq<ProcessInfo>,
    net: Seq<NetEntryModel>,
    range: (u16, u16),
    n: TreeNode,
    d: int,
    kc: Seq<TreeNode>,
    m: TreeNode,
)
    requires
        node_ok(procs, net, None, n, d),
        kept_children_ok(procs, net, range, n.children@, n.children@.len() as int, kc, d + 1),
        m.info == n.info,
        m.ports@ == n.ports@,
        m.depth == n.depth,
        m.children@ == kc,
    ensures
        survives(procs, net, range, n.info.pid) <==> (has_port_in(conns_of(net, n.info.pid), range)
            || kc.len() > 0),
        survives(procs, net, range, n.info.pid) ==> node_ok(procs, net, Some(range), m, d),
{
    let orig = n.children@;
    lemma_survives_unfold(procs, net, range, n.info.pid);
    if kc.len() > 0 {
        assert(index_below(orig, orig.len() as int, kc[0].info.pid));
        let j = choose|j: int| 0 <= j < orig.len() && orig[j].info.pid == kc[0].info.pid;
        assert(is_child(procs, n.info.pid, orig[j].info.pid));
        assert(survives(procs, net, range, kc[0].info.pid));
    } else {
        assert forall|c: u32| is_child(procs, n.info.pid, c) implies !#[trigger] survives(
            procs,
            net,
            range,
            c,
        ) by {
            assert(kept(procs, net, None, c));
            let j = choose|j: int| 0 <= j < orig.len() && (#[trigger] orig[j]).info.pid == c;
            if survives(procs, net, range, c) {
                let a = choose|a: int| 0 <= a < kc.len() && (#[trigger] kc[a]).info.pid == orig[j].info.pid;
            }
        }
    }
    assert forall|a: int| 0 <= a < m.children@.len() implies is_child(
        procs,
        m.info.pid,
        (#[trigger] m.children@[a]).info.pid,
    ) && kept(procs, net, Some(range), m.children@[a].info.pid) by {
        assert(index_below(orig, orig.len() as int, kc[a].info.pid));
        let j = choose|j: int| 0 <= j < orig.len() && orig[j].info.pid == kc[a].info.pid;
        assert(is_child(procs, n.info.pid, orig[j].info.pid));
    }
    assert forall|c: u32| is_child(procs, m.info.pid, c) && kept(procs, net, Some(range), c) implies exists|
        a: int,
    | 0 <= a < m.children@.len() && (#[trigger] m.children@[a]).info.pid == c by {
        assert(kept(procs, net, None, c));
        let j = choose|j: int| 0 <= j < orig.len() && (#[trigger] orig[j]).info.pid == c;
    }
}

/// Prunes a subtree to the processes that have a port in `range` or a
/// descendant that has one.
fn prune_tree(
    node: &TreeNode,
    range: (u16, u16),
    Ghost(procs): Ghost<Seq<ProcessInfo>>,
    Ghost(net): Ghost<Seq<NetEntryModel>>,
    Ghost(d): Ghost<int>,
) -> (r: Option<TreeNode>)
    requires
        node_ok(procs, net, None, *node, d),
    ensures
        match r {
            Some(m) => survives(procs, net, range, node.info.pid) && m.info.pid == node.info.pid
                && node_ok(procs, net, Some(range), m, d),
            None => !survives(procs, net, range, node.info.pid),
        },
    decreases node,
{
    let ghost orig = node.children@;
    let has_port = has_port_in_range(&node.ports, range);
    let mut kc: Vec<TreeNode> = Vec::new();
    let mut k: usize = 0;
    while k < node.children.len()
        invariant
            k <= orig.len(),
            orig == node.children@,
            node_ok(procs, net, None, *node, d),
            kept_children_ok(procs, net, range, orig, k as int, kc@, d + 1),
        decreases node.children.len() - k,
    {
        assert(node_ok(procs, net, None, orig[k as int], d + 1));
        let pruned = prune_tree(&node.children[k], range, Ghost(procs), Ghost(net), Ghost(d + 1));
        match pruned {
            Some(m) => {
                proof {
                    lemma_kept_push(procs, net, range, orig, k as int, kc@, d + 1, m);
                }
                kc.push(m);
            },
            None => {
                proof {
                    lemma_kept_skip(procs, net, range, orig, k as int, kc@, d + 1);
                }
            },
        }
        k = k + 1;
    }
    let keep = has_port || kc.len() > 0;
    let m = TreeNode {
        info: node.info.duplicate(),
        ports: copy_ports(&node.ports),
        children: kc,
        depth: node.depth,
    };
    proof {
        lemma_prune_result(procs, net, range, *node, d, m.children@, m);
    }
    if keep {
        Some(m)
    } else {
        None
    }
}

/// A copy of a list of connections, equal to it.
fn copy_ports(v: &Vec<NetConn>) -> (r: Vec<NetConn>)
    ensures
        r@ == v@,
{
    let mut r: Vec<NetConn> = Vec::new();
    let mut i: usize = 0;
    while i < v.len()
        invariant
            i <= v.len(),
            r@ == v@.take(i as int),
        decreases v.len() - i,
    {
        let c = &v[i];
        let d = NetConn {
            proto: c.proto.clone(),
            local_addr: c.local_addr.clone(),
            local_port: c.local_port,
            remote_addr: c.remote_addr.clone(),
            remote_port: c.remote_port,
            state: c.state.clone(),
        };
        r.push(d);
        i = i + 1;
        assert(r@ =~= v@.take(i as int));
    }
    assert(v@.take(v.len() as int) =~= v@);
    r
}

/// Build the process tree from a flat list of processes and a network map.
/// If `port_range` is `Some`, only processes that own a port in that range
/// are kept, with their ancestors to keep the tree connected.
pub fn build_tree(procs: &[ProcessInfo], net: &NetMap, port_range: Option<(u16, u16)>) -> (r: Vec<
    TreeNode,
>)
    requires
        distinct_pids(procs@),
    ensures
        forest_ok(procs@, net.model(), port_range, r@),
{
    let roots = root_pids(procs);
    let mut forest: Vec<TreeNode> = Vec::new();
    let mut k: usize = 0;
    while k < roots.len()
        invariant
            k <= roots.len(),
            distinct_pids(procs@),
            increasing_ids(roots@),
            forall|x: u32| roots@.contains(x) <==> root_pid(procs@, x),
            forest@.len() == k,
            forall|m: int| 0 <= m < k ==> (#[trigger] forest@[m]).info.pid == roots@[m],
            forall|m: int| 0 <= m < k ==> node_ok(procs@, net.model(), None, #[trigger] forest@[m], 0),
        decreases roots.len() - k,
    {
        let x = roots[k];
        assert(roots@.contains(x));
        let ghost anc = seq![x];
        proof {
            let j = choose|j: int| 0 <= j < procs@.len() && (#[trigger] procs@[j]).pid == x && is_root(procs@, procs@[j]);
            assert(pid_at(procs@, anc[0]));
        }
        let t = build_subtree(procs, net, x, 0, Ghost(anc));
        forest.push(t);
        k = k + 1;
    }
    proof {
        assert forall|a: int, b: int| 0 <= a < b < forest@.len() implies forest@[a].info.pid < forest@[b].info.pid by {
            assert(roots@[a] < roots@[b]);
        }
        assert forall|r: u32| root_pid(procs@, r) implies exists|i: int|
            0 <= i < forest@.len() && (#[trigger] forest@[i]).info.pid == r by {
            assert(roots@.contains(r));
            let m = choose|m: int| 0 <= m < roots@.len() && roots@[m] == r;
            assert(forest@[m].info.pid == r);
        }
        assert forall|i: int| 0 <= i < forest@.len() implies root_pid(procs@, (#[trigger] forest@[i]).info.pid) by {
            assert(roots@.contains(roots@[i]));
        }
    }
    match port_range {
        None => forest,
        Some(range) => prune_forest(&forest, range, Ghost(procs@), Ghost(net.model())),
    }
}

/// Prunes each tree of a forest to the processes with a port in `range`
/// or a descendant that has one.
fn prune_forest(
    forest: &Vec<TreeNode>,
    range: (u16, u16),
    Ghost(procs): Ghost<Seq<ProcessInfo>>,
    Ghost(net): Ghost<Seq<NetEntryModel>>,
) -> (r: Vec<TreeNode>)
    requires
        forest_ok(procs, net, None, forest@),
    ensures
        forest_ok(procs, net, Some(range), r@),
{
    let ghost orig = forest@;
    let mut out: Vec<TreeNode> = Vec::new();
    let mut k: usize = 0;
    while k < forest.len()
        invariant
            k <= orig.len(),
            orig == forest@,
            forest_ok(procs, net, None, orig),
            kept_children_ok(procs, net, range, orig, k as int, out@, 0),
        decreases forest.len() - k,
    {
        let pruned = prune_tree(&forest[k], range, Ghost(procs), Ghost(net), Ghost(0));
        match pruned {
            Some(m) => {
                proof {
                    lemma_kept_push(procs, net, range, orig, k as int, out@, 0, m);
                }
                out.push(m);
            },
            None => {
                proof {
                    lemma_kept_skip(procs, net, range, orig, k as int, out@, 0);
                }
            },
        }
        k = k + 1;
    }
    proof {
        assert forall|i: int| 0 <= i < out@.len() implies root_pid(procs, (#[trigger] out@[i]).info.pid)
            && kept(procs, net, Some(range), out@[i].info.pid) by {
            assert(index_below(orig, orig.len() as int, out@[i].info.pid));
            let j = choose|j: int| 0 <= j < orig.len() && orig[j].info.pid == out@[i].info.pid;
            assert(root_pid(procs, orig[j].info.pid));
        }
        assert forall|r: u32| root_pid(procs, r) && kept(procs, net, Some(range), r) implies exists|i: int|
            0 <= i < out@.len() && (#[trigger] out@[i]).info.pid == r by {
            assert(kept(procs, net, None, r));
            let j = choose|j: int| 0 <= j < orig.len() && (#[trigger] orig[j]).info.pid == r;
        }
    }
    out
}

// ---------------------------------------------------------------------
// Filtered and unfiltered trees
// ---------------------------------------------------------------------

/// Index of the first node at or after `k` for process `pid`, or the
/// number of nodes.
pub open spec fn node_index(nodes: Seq<TreeNode>, pid: u32, k: int) -> int
    decreases nodes.len() - k,
{
    if k < 0 || k >= nodes.len() {
        nodes.len() as int
    } else if nodes[k].info.pid == pid {
        k
    } else {
        node_index(nodes, pid, k + 1)
    }
}

proof fn lemma_node_index(nodes: Seq<TreeNode>, pid: u32, k: int, j: int)
    requires
        0 <= k <= j < nodes.len(),
        nodes[j].info.pid == pid,
    ensures
        k <= node_index(nodes, pid, k) <= j,
        nodes[node_index(nodes, pid, k)].info.pid == pid,
    decreases nodes.len() - k,
{
    if nodes[k].info.pid != pid {
        lemma_node_index(nodes, pid, k + 1, j);
    }
}

/// `f` is the node `g` with every subtree removed that holds no port in
/// `range`: same process, connections and depth, and as children the
/// surviving children of `g`, each pruned in turn.
pub open spec fn pruned_of(
    procs: Seq<ProcessInfo>,
    net: Seq<NetEntryModel>,
    range: (u16, u16),
    g: TreeNode,
    f: TreeNode,
) -> bool
    decreases g,
{
    &&& f.info == g.info
    &&& conns_model(f.ports@) == conns_model(g.ports@)
    &&& f.depth == g.depth
    &&& increasing(f.children@)
    &&& forall|i: int|
        #![trigger f.children@[i]]
        0 <= i < f.children@.len() ==> {
            let k = node_index(g.children@, f.children@[i].info.pid, 0);
            &&& 0 <= k < g.children@.len()
            &&& pruned_of(procs, net, range, g.children@[k], f.children@[i])
        }
    &&& forall|j: int|
        0 <= j < g.children@.len() && survives(procs, net, range, (#[trigger] g.children@[j]).info.pid)
            ==> exists|i: int|
            0 <= i < f.children@.len() && (#[trigger] f.children@[i]).info.pid == g.children@[j].info.pid
}

proof fn lemma_pruned_node(
    procs: Seq<ProcessInfo>,
    net: Seq<NetEntryModel>,
    range: (u16, u16),
    g: TreeNode,
    f: TreeNode,
    d: int,
)
    requires
        distinct_pids(procs),
        node_ok(procs, net, None, g, d),
        node_ok(procs, net, Some(range), f, d),
        f.info.pid == g.info.pid,
    ensures
        pruned_of(procs, net, range, g, f),
    decreases g,
{
    let a = choose|a: int| 0 <= a < procs.len() && procs[a] == f.info;
    let b = choose|b: int| 0 <= b < procs.len() && procs[b] == g.info;
    if a != b {
        if a < b {
            assert(procs[a].pid != procs[b].pid);
        } else {
            assert(procs[b].pid != procs[a].pid);
        }
    }
    assert forall|i: int| #![trigger f.children@[i]] 0 <= i < f.children@.len() implies {
        let k = node_index(g.children@, f.children@[i].info.pid, 0);
        &&& 0 <= k < g.children@.len()
        &&& pruned_of(procs, net, range, g.children@[k], f.children@[i])
    } by {
        let c = f.children@[i].info.pid;
        assert(is_child(procs, f.info.pid, c));
        assert(kept(procs, net, None, c));
        let j = choose|j: int| 0 <= j < g.children@.len() && (#[trigger] g.children@[j]).info.pid == c;
        lemma_node_index(g.children@, c, 0, j);
        let k = node_index(g.children@, c, 0);
        assert(node_ok(procs, net, None, g.children@[k], d + 1));
        assert(node_ok(procs, net, Some(range), f.children@[i], d + 1));
        lemma_pruned_node(procs, net, range, g.children@[k], f.children@[i], d + 1);
    }
    assert forall|j: int|
        0 <= j < g.children@.len() && survives(procs, net, range, (#[trigger] g.children@[j]).info.pid)
            implies exists|i: int|
            0 <= i < f.children@.len() && (#[trigger] f.children@[i]).info.pid == g.children@[j].info.pid by {
        let c = g.children@[j].info.pid;
        assert(is_child(procs, g.info.pid, c));
        assert(kept(procs, net, Some(range), c));
    }
}

/// Filtering by a port range keeps exactly the trees and subtrees that
/// hold a port in the range: each tree of the filtered forest is the tree
/// of the same root in the unfiltered forest, pruned, and each unfiltered
/// tree that holds such a port has its pruned tree in the filtered forest.
pub proof fn law_filtered_forest_is_pruned(
    procs: Seq<ProcessInfo>,
    net: Seq<NetEntryModel>,
    range: (u16, u16),
    all: Seq<TreeNode>,
    filtered: Seq<TreeNode>,
)
    requires
        distinct_pids(procs),
        forest_ok(procs, net, None, all),
        forest_ok(procs, net, Some(range), filtered),
    ensures
        forall|i: int|
            #![trigger filtered[i]]
            0 <= i < filtered.len() ==> {
                let k = node_index(all, filtered[i].info.pid, 0);
                &&& 0 <= k < all.len()
                &&& pruned_of(procs, net, range, all[k], filtered[i])
            },
        forall|j: int|
            0 <= j < all.len() && survives(procs, net, range, (#[trigger] all[j]).info.pid) ==> exists|
                i: int,
            | 0 <= i < filtered.len() && (#[trigger] filtered[i]).info.pid == all[j].info.pid,
{
    assert forall|i: int| #![trigger filtered[i]] 0 <= i < filtered.len() implies {
        let k = node_index(all, filtered[i].info.pid, 0);
        &&& 0 <= k < all.len()
        &&& pruned_of(procs, net, range, all[k], filtered[i])
    } by {
        let r = filtered[i].info.pid;
        assert(root_pid(procs, r) && kept(procs, net, None, r));
        let j = choose|j: int| 0 <= j < all.len() && (#[trigger] all[j]).info.pid == r;
        lemma_node_index(all, r, 0, j);
        let k = node_index(all, r, 0);
        lemma_pruned_node(procs, net, range, all[k], filtered[i], 0);
    }
    assert forall|j: int|
        0 <= j < all.len() && survives(procs, net, range, (#[trigger] all[j]).info.pid) implies exists|
            i: int,
        | 0 <= i < filtered.len() && (#[trigger] filtered[i]).info.pid == all[j].info.pid by {
        let r = all[j].info.pid;
        assert(root_pid(procs, r));
        assert(kept(procs, net, Some(range), r));
    }
}

} // verus!
