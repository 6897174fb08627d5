//! Where the groups and hosts of a configuration end up in its tree: each
//! host once, below the groups of its group path, and each group at its
//! path.
use vstd::prelude::*;

use crate::app::node_match;
use crate::search::fuzzy_match;
use crate::ssh_config::{GroupView, HostView, SshConfigView};
use crate::text::{join, lowercase};
use crate::tree::{
    NodeKind,
    NodeView,
    add_child,
    add_groups,
    add_hosts,
    ensure_path,
    extends,
    first_child_group,
    group_fields,
    host_fields,
    nonempty_fields,
    opt_seq,
    lemma_add_child_wf,
    lemma_add_groups_wf,
    lemma_add_hosts_wf,
    lemma_ensure_path_wf,
    lemma_first_child_group,
    ordered_tree_of,
    path_names,
    tree_wf,
    unsorted_tree,
};

verus! {

/// How many group nodes the groups' paths can create.
pub open spec fn group_budget(groups: Seq<GroupView>) -> nat
    decreases groups.len(),
{
    if groups.len() == 0 {
        0
    } else {
        group_budget(groups.drop_last()) + groups.last().path.len()
    }
}

/// How many nodes the hosts can add: their own and their groups'.
pub open spec fn host_budget(hosts: Seq<HostView>) -> nat
    decreases hosts.len(),
{
    if hosts.len() == 0 {
        0
    } else {
        host_budget(hosts.drop_last()) + hosts.last().group_path.len() + 1
    }
}

proof fn lemma_host_budget_len(hosts: Seq<HostView>)
    ensures
        host_budget(hosts) >= hosts.len(),
    decreases hosts.len(),
{
    if hosts.len() > 0 {
        lemma_host_budget_len(hosts.drop_last());
    }
}

/// An upper bound of the number of nodes of a configuration's tree.
pub open spec fn tree_budget(config: SshConfigView) -> nat {
    1 + group_budget(config.groups) + host_budget(config.hosts)
}

/// Some node has the path `path`.
pub open spec fn has_path(nodes: Seq<NodeView>, path: Seq<Seq<char>>) -> bool {
    exists|i: int| 0 <= i < nodes.len() && #[trigger] path_names(nodes, i as usize) == path
}

/// Some node is host `h`, below the groups of `path`.
pub open spec fn host_at(nodes: Seq<NodeView>, h: usize, path: Seq<Seq<char>>) -> bool {
    exists|i: int|
        0 <= i < nodes.len() && (#[trigger] nodes[i]).kind == NodeKind::Host(h) && path_names(
            nodes,
            nodes[i].parent->0,
        ) == path
}

/// No host is two nodes.
pub open spec fn hosts_once(nodes: Seq<NodeView>) -> bool {
    forall|i: int, j: int|
        0 <= i < nodes.len() && 0 <= j < nodes.len() && (#[trigger] nodes[i]).kind is Host
            && nodes[i].kind == (#[trigger] nodes[j]).kind ==> i == j
}

/// The path of a node depends only on the names, kinds and parents of it
/// and the nodes above it, which a tree keeps as it grows.
proof fn lemma_path_names_kept(old_nodes: Seq<NodeView>, new_nodes: Seq<NodeView>, id: usize)
    requires
        extends(old_nodes, new_nodes),
        (id as int) < old_nodes.len(),
    ensures
        path_names(new_nodes, id) == path_names(old_nodes, id),
    decreases id,
{
    assert(new_nodes[id as int].parent == old_nodes[id as int].parent);
    match old_nodes[id as int].parent {
        Some(p) => if p < id {
            lemma_path_names_kept(old_nodes, new_nodes, p);
        },
        None => {},
    }
}

/// Ordering the children changes no path.
proof fn lemma_path_names_ordered(unsorted: Seq<NodeView>, sorted: Seq<NodeView>, id: usize)
    requires
        ordered_tree_of(unsorted, sorted),
        (id as int) < sorted.len(),
    ensures
        path_names(sorted, id) == path_names(unsorted, id),
    decreases id,
{
    assert(sorted[id as int] == NodeView { children: sorted[id as int].children, ..unsorted[id as int] });
    match unsorted[id as int].parent {
        Some(p) => if p < id {
            lemma_path_names_ordered(unsorted, sorted, p);
        },
        None => {},
    }
}

/// Walking a group path down from a group reaches the group whose path is
/// the walked path, adding at most one node per step.
proof fn lemma_ensure_path_places(
    nodes: Seq<NodeView>,
    parent: usize,
    segs: Seq<Seq<char>>,
    k: int,
    description: Option<Seq<char>>,
)
    requires
        tree_wf(nodes),
        (parent as int) < nodes.len(),
        nodes[parent as int].kind !is Host,
        0 <= k <= segs.len(),
        nodes.len() + (segs.len() - k) < usize::MAX,
    ensures
        ({
            let (n2, id) = ensure_path(nodes, parent, segs, k, description);
            &&& path_names(n2, id) == path_names(nodes, parent) + segs.skip(k)
            &&& n2.len() <= nodes.len() + (segs.len() - k)
            &&& n2[id as int].kind !is Host
            &&& (id == parent || n2[id as int].kind is Group)
        }),
    decreases segs.len() - k,
{
    lemma_ensure_path_wf(nodes, parent, segs, k, description);
    if k < segs.len() {
        let seg = segs[k];
        let cs = nodes[parent as int].children;
        lemma_first_child_group(nodes, cs, seg, 0);
        match first_child_group(nodes, cs, seg, 0) {
            Some(c) => {
                let j = choose|j: int| 0 <= j < cs.len() && cs[j] == c;
                assert(nodes[parent as int].children[j] == c);
                assert(nodes[c as int].parent == Some(parent));
                assert(path_names(nodes, c) == path_names(nodes, parent) + seq![seg]);
                lemma_ensure_path_places(nodes, c, segs, k + 1, description);
                assert(segs.skip(k) =~= seq![seg] + segs.skip(k + 1));
                assert(path_names(nodes, parent) + seq![seg] + segs.skip(k + 1) =~= path_names(
                    nodes,
                    parent,
                ) + segs.skip(k));
            },
            None => {
                let id = nodes.len() as usize;
                let desc = if k + 1 == segs.len() {
                    description
                } else {
                    None
                };
                let n = NodeView {
                    id,
                    name: seg,
                    description: desc,
                    parent: Some(parent),
                    children: Seq::empty(),
                    kind: NodeKind::Group,
                    search_fields: group_fields(segs.take(k + 1), desc),
                };
                lemma_add_child_wf(nodes, parent, n);
                let n1 = add_child(nodes, parent, n);
                lemma_path_names_kept(nodes, n1, parent);
                assert(n1[id as int] == n);
                assert(path_names(n1, id) == path_names(n1, parent) + seq![seg]);
                lemma_ensure_path_places(n1, id, segs, k + 1, description);
                assert(segs.skip(k) =~= seq![seg] + segs.skip(k + 1));
                assert(path_names(nodes, parent) + seq![seg] + segs.skip(k + 1) =~= path_names(
                    nodes,
                    parent,
                ) + segs.skip(k));
            },
        }
    } else {
        assert(segs.skip(k) =~= Seq::<Seq<char>>::empty());
        assert(path_names(nodes, parent) + segs.skip(k) =~= path_names(nodes, parent));
    }
}

/// The groups make a tree of groups, each group at its path.
proof fn lemma_add_groups_places(groups: Seq<GroupView>)
    requires
        1 + group_budget(groups) < usize::MAX,
    ensures
        add_groups(groups).0.len() <= 1 + group_budget(groups),
        forall|g: int| 0 <= g < groups.len() ==> has_path(add_groups(groups).0, (#[trigger] groups[g]).path),
    decreases groups.len(),
{
    lemma_add_groups_wf(groups);
    if groups.len() > 0 {
        let rest = groups.drop_last();
        lemma_add_groups_places(rest);
        lemma_add_groups_wf(rest);
        let nodes = add_groups(rest).0;
        let g = groups.last();
        assert(nodes[0].kind is Root);
        lemma_ensure_path_places(nodes, 0, g.path, 0, g.description);
        lemma_ensure_path_wf(nodes, 0, g.path, 0, g.description);
        let (n2, id) = ensure_path(nodes, 0, g.path, 0, g.description);
        assert(path_names(nodes, 0) =~= Seq::<Seq<char>>::empty());
        assert(g.path.skip(0) =~= g.path);
        assert(add_groups(groups).0 == n2);
        assert forall|x: int| 0 <= x < groups.len() implies has_path(n2, (#[trigger] groups[x]).path) by {
            if x < rest.len() {
                assert(groups[x] == rest[x]);
                assert(has_path(nodes, rest[x].path));
                let i = choose|i: int|
                    0 <= i < nodes.len() && #[trigger] path_names(nodes, i as usize) == rest[x].path;
                lemma_path_names_kept(nodes, n2, i as usize);
                assert(path_names(n2, i as usize) == rest[x].path);
            } else {
                assert(path_names(n2, id) == g.path);
            }
        }
    }
}

/// The step that adds host `h` (the `n`-th) to a tree.
pub open spec fn host_step(nodes1: Seq<NodeView>, h: HostView, n: usize) -> Seq<NodeView> {
    let (nodes2, parent) = if h.group_path.len() == 0 {
        (nodes1, 0usize)
    } else {
        ensure_path(nodes1, 0, h.group_path, 0, None)
    };
    if nodes2.len() >= usize::MAX {
        nodes2
    } else {
        add_child(
            nodes2,
            parent,
            NodeView {
                id: nodes2.len() as usize,
                name: h.alias,
                description: h.description,
                parent: Some(parent),
                children: Seq::empty(),
                kind: NodeKind::Host(n),
                search_fields: host_fields(h),
            },
        )
    }
}

/// Adding a host adds one host node, below the groups of its path, and
/// otherwise only groups.
proof fn lemma_host_step(nodes1: Seq<NodeView>, h: HostView, n: usize) -> (idx: int)
    requires
        tree_wf(nodes1),
        nodes1.len() + h.group_path.len() + 1 < usize::MAX,
    ensures
        extends(nodes1, host_step(nodes1, h, n)),
        host_step(nodes1, h, n).len() <= nodes1.len() + h.group_path.len() + 1,
        nodes1.len() <= idx < host_step(nodes1, h, n).len(),
        host_step(nodes1, h, n)[idx].kind == NodeKind::Host(n),
        path_names(host_step(nodes1, h, n), host_step(nodes1, h, n)[idx].parent->0) == h.group_path,
        forall|i: int|
            nodes1.len() <= i < host_step(nodes1, h, n).len() && i != idx ==> (#[trigger] host_step(
                nodes1,
                h,
                n,
            )[i]).kind is Group,
{
    let (nodes2, parent) = if h.group_path.len() == 0 {
        (nodes1, 0usize)
    } else {
        ensure_path(nodes1, 0, h.group_path, 0, None)
    };
    assert(nodes1[0].kind is Root);
    assert(path_names(nodes1, 0) =~= Seq::<Seq<char>>::empty());
    if h.group_path.len() != 0 {
        lemma_ensure_path_places(nodes1, 0, h.group_path, 0, None);
        lemma_ensure_path_wf(nodes1, 0, h.group_path, 0, None);
        assert(h.group_path.skip(0) =~= h.group_path);
    } else {
        assert(h.group_path =~= Seq::<Seq<char>>::empty());
    }
    let hn = NodeView {
        id: nodes2.len() as usize,
        name: h.alias,
        description: h.description,
        parent: Some(parent),
        children: Seq::empty(),
        kind: NodeKind::Host(n),
        search_fields: host_fields(h),
    };
    let r = add_child(nodes2, parent, hn);
    lemma_add_child_wf(nodes2, parent, hn);
    lemma_path_names_kept(nodes2, r, parent);
    assert(r[nodes2.len() as int] == hn);
    assert forall|i: int| 0 <= i < nodes1.len() implies {
        &&& (#[trigger] r[i]).id == nodes1[i].id
        &&& r[i].name == nodes1[i].name
        &&& r[i].kind == nodes1[i].kind
        &&& r[i].parent == nodes1[i].parent
        &&& r[i].description == nodes1[i].description
        &&& r[i].search_fields == nodes1[i].search_fields
    } by {
        assert(nodes2[i].id == nodes1[i].id);
    }
    assert forall|i: int| nodes1.len() <= i < r.len() && i != nodes2.len() implies (
    #[trigger] r[i]).kind is Group by {
        assert(r[i].kind == nodes2[i].kind);
    }
    nodes2.len() as int
}

/// The hosts, added to a tree of groups, each sit once below the groups of
/// their group path.
proof fn lemma_add_hosts_places(nodes: Seq<NodeView>, hosts: Seq<HostView>)
    requires
        tree_wf(nodes),
        forall|i: int| 0 <= i < nodes.len() ==> (#[trigger] nodes[i]).kind !is Host,
        nodes.len() + host_budget(hosts) < usize::MAX,
    ensures
        add_hosts(nodes, hosts).len() <= nodes.len() + host_budget(hosts),
        forall|h: int|
            0 <= h < hosts.len() ==> host_at(add_hosts(nodes, hosts), h as usize, (#[trigger] hosts[h]).group_path),
        hosts_once(add_hosts(nodes, hosts)),
    decreases hosts.len(),
{
    if hosts.len() > 0 {
        let earlier = hosts.drop_last();
        lemma_host_budget_len(hosts);
        lemma_add_hosts_places(nodes, earlier);
        lemma_add_hosts_wf(nodes, earlier);
        let nodes1 = add_hosts(nodes, earlier);
        let h = hosts.last();
        let n = (hosts.len() - 1) as usize;
        assert(add_hosts(nodes, hosts) == host_step(nodes1, h, n));
        let idx = lemma_host_step(nodes1, h, n);
        let r = host_step(nodes1, h, n);
        lemma_host_at_step(nodes1, r, earlier, h, idx);
        assert forall|x: int| 0 <= x < hosts.len() implies host_at(r, x as usize, (#[trigger] hosts[x]).group_path) by {
            if x < earlier.len() {
                assert(hosts[x] == earlier[x]);
            }
        }
        assert forall|i: int| 0 <= i < nodes1.len() && (#[trigger] nodes1[i]).kind is Host implies (
        nodes1[i].kind->0) < n by {
            assert((nodes1[i].kind->0 as nat) < earlier.len());
        }
        lemma_hosts_once_step(nodes1, r, idx, n);
    }
}

/// Hosts placed before a step stay placed; the new host is placed too.
proof fn lemma_host_at_step(
    nodes1: Seq<NodeView>,
    r: Seq<NodeView>,
    earlier: Seq<HostView>,
    h: HostView,
    idx: int,
)
    requires
        tree_wf(nodes1),
        extends(nodes1, r),
        forall|x: int| 0 <= x < earlier.len() ==> host_at(nodes1, x as usize, (#[trigger] earlier[x]).group_path),
        0 <= idx < r.len(),
        r[idx].kind == NodeKind::Host(earlier.len() as usize),
        path_names(r, r[idx].parent->0) == h.group_path,
    ensures
        forall|x: int| 0 <= x < earlier.len() ==> host_at(r, x as usize, (#[trigger] earlier[x]).group_path),
        host_at(r, earlier.len() as usize, h.group_path),
{
    assert forall|x: int| 0 <= x < earlier.len() implies host_at(r, x as usize, (#[trigger] earlier[x]).group_path) by {
        assert(host_at(nodes1, x as usize, earlier[x].group_path));
        let i = choose|i: int|
            0 <= i < nodes1.len() && (#[trigger] nodes1[i]).kind == NodeKind::Host(x as usize)
                && path_names(nodes1, nodes1[i].parent->0) == earlier[x].group_path;
        assert(i > 0);
        assert(r[i].kind == nodes1[i].kind && r[i].parent == nodes1[i].parent);
        lemma_path_names_kept(nodes1, r, nodes1[i].parent->0);
    }
}

/// A tree that grows by one host node, new to it, and groups keeps each
/// host once.
proof fn lemma_hosts_once_step(nodes1: Seq<NodeView>, r: Seq<NodeView>, idx: int, n: usize)
    requires
        hosts_once(nodes1),
        extends(nodes1, r),
        forall|i: int| 0 <= i < nodes1.len() && (#[trigger] nodes1[i]).kind is Host ==> (
        nodes1[i].kind->0) < n,
        nodes1.len() <= idx < r.len(),
        r[idx].kind == NodeKind::Host(n),
        forall|i: int| nodes1.len() <= i < r.len() && i != idx ==> (#[trigger] r[i]).kind is Group,
    ensures
        hosts_once(r),
{
    assert forall|i: int, j: int|
        0 <= i < r.len() && 0 <= j < r.len() && (#[trigger] r[i]).kind is Host && r[i].kind == (
        #[trigger] r[j]).kind implies i == j by {
        if i < nodes1.len() {
            assert(r[i].kind == nodes1[i].kind);
        }
        if j < nodes1.len() {
            assert(r[j].kind == nodes1[j].kind);
        }
        if i < nodes1.len() && j < nodes1.len() {
            assert(nodes1[i].kind == nodes1[j].kind);
        }
    }
}

/// Each host of a configuration sits in its tree once, as a host node
/// below the groups of its group path, when the tree's nodes fit in
/// memory's count.
pub proof fn law_each_host_once_below_its_group_path(config: SshConfigView, nodes: Seq<NodeView>)
    requires
        ordered_tree_of(unsorted_tree(config), nodes),
        tree_budget(config) < usize::MAX,
    ensures
        forall|h: int|
            0 <= h < config.hosts.len() ==> host_at(nodes, h as usize, (#[trigger] config.hosts[h]).group_path),
        hosts_once(nodes),
{
    let unsorted = unsorted_tree(config);
    lemma_add_groups_places(config.groups);
    lemma_add_groups_wf(config.groups);
    let groups = add_groups(config.groups).0;
    assert forall|i: int| 0 <= i < groups.len() implies (#[trigger] groups[i]).kind !is Host by {
        if i > 0 {
            assert(groups[i].kind is Group);
        }
    }
    lemma_add_hosts_places(groups, config.hosts);
    assert forall|h: int| 0 <= h < config.hosts.len() implies host_at(nodes, h as usize, (#[trigger] config.hosts[h]).group_path) by {
        assert(host_at(unsorted, h as usize, config.hosts[h].group_path));
        let i = choose|i: int|
            0 <= i < unsorted.len() && (#[trigger] unsorted[i]).kind == NodeKind::Host(h as usize)
                && path_names(unsorted, unsorted[i].parent->0) == config.hosts[h].group_path;
        assert(nodes[i] == NodeView { children: nodes[i].children, ..unsorted[i] });
        lemma_add_hosts_wf(groups, config.hosts);
        assert(i > 0);
        lemma_path_names_ordered(unsorted, nodes, unsorted[i].parent->0);
        assert(nodes[i].kind == NodeKind::Host(h as usize));
    }
    assert(hosts_once(unsorted));
    assert forall|i: int, j: int|
        0 <= i < nodes.len() && 0 <= j < nodes.len() && (#[trigger] nodes[i]).kind is Host
            && nodes[i].kind == (#[trigger] nodes[j]).kind implies i == j by {
        assert(nodes[i] == NodeView { children: nodes[i].children, ..unsorted[i] });
        assert(nodes[j] == NodeView { children: nodes[j].children, ..unsorted[j] });
    }
}

/// Each group of a configuration is a node of its tree whose path is the
/// group's path, when the tree's nodes fit in memory's count.
pub proof fn law_each_group_at_its_path(config: SshConfigView, nodes: Seq<NodeView>)
    requires
        ordered_tree_of(unsorted_tree(config), nodes),
        tree_budget(config) < usize::MAX,
    ensures
        forall|g: int| 0 <= g < config.groups.len() ==> has_path(nodes, (#[trigger] config.groups[g]).path),
{
    let unsorted = unsorted_tree(config);
    lemma_add_groups_places(config.groups);
    lemma_add_groups_wf(config.groups);
    let groups = add_groups(config.groups).0;
    assert forall|i: int| 0 <= i < groups.len() implies (#[trigger] groups[i]).kind !is Host by {
        if i > 0 {
            assert(groups[i].kind is Group);
        }
    }
    lemma_add_hosts_wf(groups, config.hosts);
    assert forall|g: int| 0 <= g < config.groups.len() implies has_path(nodes, (#[trigger] config.groups[g]).path) by {
        assert(has_path(groups, config.groups[g].path));
        let i = choose|i: int|
            0 <= i < groups.len() && #[trigger] path_names(groups, i as usize) == config.groups[g].path;
        lemma_path_names_kept(groups, unsorted, i as usize);
        lemma_path_names_ordered(unsorted, nodes, i as usize);
        assert(path_names(nodes, i as usize) == config.groups[g].path);
    }
}

// Walking a group path twice ---------------------------------------------

/// Walking a group path down from `q` touches no child list of a node
/// before `q`, and adds at most one node for each segment left.
proof fn lemma_ensure_path_frame(
    nodes: Seq<NodeView>,
    q: usize,
    segs: Seq<Seq<char>>,
    k: int,
    d: Option<Seq<char>>,
)
    requires
        tree_wf(nodes),
        (q as int) < nodes.len(),
        0 <= k,
    ensures
        ({
            let r = ensure_path(nodes, q, segs, k, d).0;
            &&& r.len() <= nodes.len() + if k < segs.len() {
                segs.len() - k
            } else {
                0
            }
            &&& forall|i: int| 0 <= i < q ==> (#[trigger] r[i]).children == nodes[i].children
        }),
    decreases segs.len() - k,
{
    if k < segs.len() && nodes.len() < usize::MAX {
        let seg = segs[k];
        lemma_first_child_group(nodes, nodes[q as int].children, seg, 0);
        match first_child_group(nodes, nodes[q as int].children, seg, 0) {
            Some(c) => {
                assert(nodes[q as int].children.contains(c));
                let j = choose|j: int| 0 <= j < nodes[q as int].children.len() && nodes[q as int].children[j] == c;
                assert(q < nodes[q as int].children[j]);
                lemma_ensure_path_frame(nodes, c, segs, k + 1, d);
            },
            None => {
                let id = nodes.len() as usize;
                let desc = if k + 1 == segs.len() {
                    d
                } else {
                    None
                };
                let n = NodeView {
                    id,
                    name: seg,
                    description: desc,
                    parent: Some(q),
                    children: Seq::empty(),
                    kind: NodeKind::Group,
                    search_fields: group_fields(segs.take(k + 1), desc),
                };
                lemma_add_child_wf(nodes, q, n);
                let n1 = add_child(nodes, q, n);
                lemma_ensure_path_frame(n1, id, segs, k + 1, d);
                let r = ensure_path(n1, id, segs, k + 1, d).0;
                assert forall|i: int| 0 <= i < q implies (#[trigger] r[i]).children == nodes[i].children by {
                    assert(n1[i] == nodes[i]);
                }
            },
        }
    }
}

/// Looking for a group among children does not change where nodes keep
/// their names and kinds.
proof fn lemma_first_child_group_kept(
    nodes: Seq<NodeView>,
    later: Seq<NodeView>,
    cs: Seq<usize>,
    name: Seq<char>,
    k: int,
)
    requires
        extends(nodes, later),
        forall|j: int| 0 <= j < cs.len() ==> (#[trigger] cs[j] as int) < nodes.len(),
    ensures
        first_child_group(later, cs, name, k) == first_child_group(nodes, cs, name, k),
    decreases cs.len() - k,
{
    if 0 <= k < cs.len() {
        assert(later[cs[k] as int].kind == nodes[cs[k] as int].kind);
        lemma_first_child_group_kept(nodes, later, cs, name, k + 1);
    }
}

/// Where no child is a group of that name, the group appended last is the
/// one found.
proof fn lemma_first_child_group_appended(
    nodes: Seq<NodeView>,
    later: Seq<NodeView>,
    cs: Seq<usize>,
    name: Seq<char>,
    id: usize,
    k: int,
)
    requires
        extends(nodes, later),
        forall|j: int| 0 <= j < cs.len() ==> (#[trigger] cs[j] as int) < nodes.len(),
        first_child_group(nodes, cs, name, k) is None,
        (id as int) < later.len(),
        later[id as int].kind is Group,
        later[id as int].name == name,
        0 <= k <= cs.len(),
    ensures
        first_child_group(later, cs.push(id), name, k) == Some(id),
    decreases cs.len() - k,
{
    let cs2 = cs.push(id);
    if k < cs.len() {
        assert(cs2[k] == cs[k]);
        assert(later[cs[k] as int].kind == nodes[cs[k] as int].kind);
        lemma_first_child_group_appended(nodes, later, cs, name, id, k + 1);
    } else {
        assert(cs2[k] == id);
    }
}

proof fn lemma_extends_trans(a: Seq<NodeView>, b: Seq<NodeView>, c: Seq<NodeView>)
    requires
        extends(a, b),
        extends(b, c),
    ensures
        extends(a, c),
{
    assert forall|i: int| 0 <= i < a.len() implies {
        &&& (#[trigger] c[i]).id == a[i].id
        &&& c[i].name == a[i].name
        &&& c[i].kind == a[i].kind
        &&& c[i].parent == a[i].parent
        &&& c[i].description == a[i].description
        &&& c[i].search_fields == a[i].search_fields
    } by {
        assert(b[i].id == a[i].id);
    }
}

/// Walking a group path a second time finds every group that the first
/// walk found or made: it returns the same group and changes no node.
pub proof fn law_group_path_walk_is_idempotent(
    nodes: Seq<NodeView>,
    q: usize,
    segs: Seq<Seq<char>>,
    k: int,
    d: Option<Seq<char>>,
)
    requires
        tree_wf(nodes),
        (q as int) < nodes.len(),
        0 <= k,
        nodes.len() + segs.len() - k < usize::MAX,
    ensures
        ensure_path(ensure_path(nodes, q, segs, k, d).0, q, segs, k, d) == ensure_path(
            nodes,
            q,
            segs,
            k,
            d,
        ),
    decreases segs.len() - k,
{
    let (n1, g) = ensure_path(nodes, q, segs, k, d);
    lemma_ensure_path_wf(nodes, q, segs, k, d);
    lemma_ensure_path_frame(nodes, q, segs, k, d);
    if k < segs.len() {
        let seg = segs[k];
        let cs = nodes[q as int].children;
        assert forall|j: int| 0 <= j < cs.len() implies (#[trigger] cs[j] as int) < nodes.len() by {
            assert(q < cs[j] && (cs[j] as int) < nodes.len());
        }
        lemma_first_child_group(nodes, cs, seg, 0);
        match first_child_group(nodes, cs, seg, 0) {
            Some(c) => {
                let j = choose|j: int| 0 <= j < cs.len() && cs[j] == c;
                assert(q < cs[j]);
                law_group_path_walk_is_idempotent(nodes, c, segs, k + 1, d);
                lemma_ensure_path_frame(nodes, c, segs, k + 1, d);
                assert(n1[q as int].children == cs);
                lemma_first_child_group_kept(nodes, n1, cs, seg, 0);
            },
            None => {
                let id = nodes.len() as usize;
                let desc = if k + 1 == segs.len() {
                    d
                } else {
                    None
                };
                let n = NodeView {
                    id,
                    name: seg,
                    description: desc,
                    parent: Some(q),
                    children: Seq::empty(),
                    kind: NodeKind::Group,
                    search_fields: group_fields(segs.take(k + 1), desc),
                };
                lemma_add_child_wf(nodes, q, n);
                let m = add_child(nodes, q, n);
                assert(m[q as int].children == cs.push(id));
                law_group_path_walk_is_idempotent(m, id, segs, k + 1, d);
                lemma_ensure_path_wf(m, id, segs, k + 1, d);
                lemma_ensure_path_frame(m, id, segs, k + 1, d);
                assert(n1[q as int].children == cs.push(id));
                lemma_extends_trans(nodes, m, n1);
                assert(m[id as int] == n);
                assert(n1[id as int].kind is Group && n1[id as int].name == seg);
                lemma_first_child_group_appended(nodes, n1, cs, seg, id, 0);
            },
        }
    }
}

// Leaves and child lists ---------------------------------------------------

/// Host nodes have no children.
pub open spec fn hosts_are_leaves(nodes: Seq<NodeView>) -> bool {
    forall|i: int| 0 <= i < nodes.len() && (#[trigger] nodes[i]).kind is Host ==> nodes[i].children.len() == 0
}

proof fn lemma_add_child_leaves(nodes: Seq<NodeView>, parent: usize, n: NodeView)
    requires
        hosts_are_leaves(nodes),
        (parent as int) < nodes.len(),
        nodes[parent as int].kind !is Host,
        n.children.len() == 0,
    ensures
        hosts_are_leaves(add_child(nodes, parent, n)),
{
    let r = add_child(nodes, parent, n);
    assert forall|i: int| 0 <= i < r.len() && (#[trigger] r[i]).kind is Host implies r[i].children.len() == 0 by {
        if i < nodes.len() && i != parent {
            assert(r[i] == nodes[i]);
        }
    }
}

proof fn lemma_ensure_path_leaves(
    nodes: Seq<NodeView>,
    q: usize,
    segs: Seq<Seq<char>>,
    k: int,
    d: Option<Seq<char>>,
)
    requires
        tree_wf(nodes),
        hosts_are_leaves(nodes),
        (q as int) < nodes.len(),
        nodes[q as int].kind !is Host,
        0 <= k,
    ensures
        hosts_are_leaves(ensure_path(nodes, q, segs, k, d).0),
        ensure_path(nodes, q, segs, k, d).0[ensure_path(nodes, q, segs, k, d).1 as int].kind !is Host,
    decreases segs.len() - k,
{
    lemma_ensure_path_wf(nodes, q, segs, k, d);
    if k < segs.len() && nodes.len() < usize::MAX {
        let seg = segs[k];
        lemma_first_child_group(nodes, nodes[q as int].children, seg, 0);
        match first_child_group(nodes, nodes[q as int].children, seg, 0) {
            Some(c) => {
                lemma_ensure_path_leaves(nodes, c, segs, k + 1, d);
            },
            None => {
                let id = nodes.len() as usize;
                let desc = if k + 1 == segs.len() {
                    d
                } else {
                    None
                };
                let n = NodeView {
                    id,
                    name: seg,
                    description: desc,
                    parent: Some(q),
                    children: Seq::empty(),
                    kind: NodeKind::Group,
                    search_fields: group_fields(segs.take(k + 1), desc),
                };
                lemma_add_child_wf(nodes, q, n);
                lemma_add_child_leaves(nodes, q, n);
                lemma_ensure_path_leaves(add_child(nodes, q, n), id, segs, k + 1, d);
            },
        }
    }
}

proof fn lemma_add_hosts_leaves(nodes: Seq<NodeView>, hosts: Seq<HostView>)
    requires
        tree_wf(nodes),
        hosts_are_leaves(nodes),
        forall|i: int| 0 <= i < nodes.len() ==> (#[trigger] nodes[i]).kind !is Host,
    ensures
        hosts_are_leaves(add_hosts(nodes, hosts)),
    decreases hosts.len(),
{
    if hosts.len() > 0 {
        lemma_add_hosts_leaves(nodes, hosts.drop_last());
        lemma_add_hosts_wf(nodes, hosts.drop_last());
        let nodes1 = add_hosts(nodes, hosts.drop_last());
        let h = hosts.last();
        assert(nodes1[0].kind is Root);
        let (nodes2, parent) = if h.group_path.len() == 0 {
            (nodes1, 0usize)
        } else {
            lemma_ensure_path_wf(nodes1, 0, h.group_path, 0, None);
            lemma_ensure_path_leaves(nodes1, 0, h.group_path, 0, None);
            ensure_path(nodes1, 0, h.group_path, 0, None)
        };
        if nodes2.len() < usize::MAX {
            lemma_add_child_leaves(
                nodes2,
                parent,
                NodeView {
                    id: nodes2.len() as usize,
                    name: h.alias,
                    description: h.description,
                    parent: Some(parent),
                    children: Seq::empty(),
                    kind: NodeKind::Host((hosts.len() - 1) as usize),
                    search_fields: host_fields(h),
                },
            );
        }
    }
}

/// In the tree of a configuration, host nodes have no children.
pub proof fn law_hosts_are_leaves(config: SshConfigView, nodes: Seq<NodeView>)
    requires
        ordered_tree_of(unsorted_tree(config), nodes),
    ensures
        hosts_are_leaves(nodes),
{
    lemma_add_groups_wf(config.groups);
    let groups = add_groups(config.groups).0;
    assert forall|i: int| 0 <= i < groups.len() implies (#[trigger] groups[i]).kind !is Host by {
        if i > 0 {
            assert(groups[i].kind is Group);
        }
    }
    assert(hosts_are_leaves(groups));
    lemma_add_hosts_leaves(groups, config.hosts);
    let unsorted = unsorted_tree(config);
    assert forall|i: int| 0 <= i < nodes.len() && (#[trigger] nodes[i]).kind is Host implies nodes[i].children.len()
        == 0 by {
        assert(nodes[i] == NodeView { children: nodes[i].children, ..unsorted[i] });
        assert(unsorted[i].kind is Host);
    }
}

/// In a well-formed tree every node but the root lies in exactly one child
/// list, its parent's, and there only once; the root lies in none.
pub proof fn law_each_node_in_one_child_list(nodes: Seq<NodeView>, x: usize, p: usize)
    requires
        tree_wf(nodes),
        (x as int) < nodes.len(),
        (p as int) < nodes.len(),
    ensures
        nodes[p as int].children.contains(x) <==> (x != 0 && nodes[x as int].parent == Some(p)),
        nodes[p as int].children.no_duplicates(),
{
    let cs = nodes[p as int].children;
    if cs.contains(x) {
        let j = choose|j: int| 0 <= j < cs.len() && cs[j] == x;
        assert(p < cs[j]);
    }
}

// Search fields of host nodes -------------------------------------------

proof fn lemma_nonempty_fields_keep(fs: Seq<Seq<char>>, x: Seq<char>)
    requires
        fs.contains(x),
        x.len() > 0,
    ensures
        nonempty_fields(fs).contains(x),
    decreases fs.len(),
{
    let rest = nonempty_fields(fs.drop_last());
    if fs.last() == x {
        assert(nonempty_fields(fs) == rest.push(x));
        assert(rest.push(x)[rest.len() as int] == x);
    } else {
        let k = choose|k: int| 0 <= k < fs.len() && fs[k] == x;
        assert(k < fs.len() - 1);
        assert(fs.drop_last()[k] == x);
        lemma_nonempty_fields_keep(fs.drop_last(), x);
        let t = choose|t: int| 0 <= t < rest.len() && rest[t] == x;
        if fs.last().len() > 0 {
            assert(nonempty_fields(fs)[t] == x);
        }
    }
}

/// A host is searched by its alias, its description, its group path, its
/// host name and its user, each where it is not empty.
pub proof fn law_host_fields_name_the_host(h: HostView)
    ensures
        h.alias.len() > 0 ==> host_fields(h).contains(h.alias),
        h.description matches Some(d) ==> (d.len() > 0 ==> host_fields(h).contains(d)),
        join(h.group_path, seq!['/']).len() > 0 ==> host_fields(h).contains(
            join(h.group_path, seq!['/']),
        ),
        h.resolved.host_name matches Some(n) ==> (n.len() > 0 ==> host_fields(h).contains(n)),
        h.resolved.user matches Some(u) ==> (u.len() > 0 ==> host_fields(h).contains(u)),
        forall|i: int| 0 <= i < host_fields(h).len() ==> (#[trigger] host_fields(h)[i]).len() > 0,
{
    let g = join(h.group_path, seq!['/']);
    let fs = seq![h.alias] + opt_seq(h.description) + seq![g] + opt_seq(h.resolved.host_name)
        + opt_seq(h.resolved.user);
    let d0 = opt_seq(h.description);
    let n0 = opt_seq(h.resolved.host_name);
    let u0 = opt_seq(h.resolved.user);
    let la: int = 1 + d0.len() as int;
    assert(fs[0] == h.alias);
    if h.alias.len() > 0 {
        lemma_nonempty_fields_keep(fs, h.alias);
    }
    if let Some(d) = h.description {
        assert(fs[1] == d);
        if d.len() > 0 {
            lemma_nonempty_fields_keep(fs, d);
        }
    }
    assert(fs[la] == g);
    if g.len() > 0 {
        lemma_nonempty_fields_keep(fs, g);
    }
    if let Some(n) = h.resolved.host_name {
        assert(fs[la + 1] == n);
        if n.len() > 0 {
            lemma_nonempty_fields_keep(fs, n);
        }
    }
    if let Some(u) = h.resolved.user {
        assert(fs[la + 1 + n0.len() as int] == u);
        if u.len() > 0 {
            lemma_nonempty_fields_keep(fs, u);
        }
    }
    lemma_nonempty_fields_nonempty(fs);
}

proof fn lemma_nonempty_fields_nonempty(fs: Seq<Seq<char>>)
    ensures
        forall|i: int| 0 <= i < nonempty_fields(fs).len() ==> (#[trigger] nonempty_fields(fs)[i]).len() > 0,
    decreases fs.len(),
{
    if fs.len() > 0 {
        lemma_nonempty_fields_nonempty(fs.drop_last());
        let rest = nonempty_fields(fs.drop_last());
        assert forall|i: int| 0 <= i < nonempty_fields(fs).len() implies (#[trigger] nonempty_fields(fs)[i]).len() > 0 by {
            if i < rest.len() {
                assert(nonempty_fields(fs)[i] == rest[i]);
            }
        }
    }
}

/// Each host node carries the search fields of the host it stands for.
pub open spec fn host_nodes_carry_fields(nodes: Seq<NodeView>, hosts: Seq<HostView>) -> bool {
    forall|i: int|
        0 <= i < nodes.len() && (#[trigger] nodes[i]).kind is Host ==> {
            &&& (nodes[i].kind->0 as int) < hosts.len()
            &&& nodes[i].search_fields == host_fields(hosts[nodes[i].kind->0 as int])
        }
}

proof fn lemma_carry_fields_extended(
    nodes1: Seq<NodeView>,
    nodes2: Seq<NodeView>,
    earlier: Seq<HostView>,
    hosts: Seq<HostView>,
)
    requires
        host_nodes_carry_fields(nodes1, earlier),
        extends(nodes1, nodes2),
        forall|i: int| nodes1.len() <= i < nodes2.len() ==> (#[trigger] nodes2[i]).kind is Group,
        earlier.len() <= hosts.len(),
        forall|x: int| 0 <= x < earlier.len() ==> #[trigger] earlier[x] == hosts[x],
    ensures
        host_nodes_carry_fields(nodes2, hosts),
{
    assert forall|i: int| 0 <= i < nodes2.len() && (#[trigger] nodes2[i]).kind is Host implies {
        &&& (nodes2[i].kind->0 as int) < hosts.len()
        &&& nodes2[i].search_fields == host_fields(hosts[nodes2[i].kind->0 as int])
    } by {
        if i < nodes1.len() {
            assert(nodes2[i].kind == nodes1[i].kind);
            assert(nodes1[i].kind is Host);
            let x = nodes1[i].kind->0 as int;
            assert(earlier[x] == hosts[x]);
        }
    }
}

proof fn lemma_host_fields_step(nodes1: Seq<NodeView>, earlier: Seq<HostView>, h: HostView)
    requires
        tree_wf(nodes1),
        host_nodes_carry_fields(nodes1, earlier),
        earlier.len() < usize::MAX,
    ensures
        host_nodes_carry_fields(host_step(nodes1, h, earlier.len() as usize), earlier.push(h)),
{
    let hosts = earlier.push(h);
    assert forall|x: int| 0 <= x < earlier.len() implies #[trigger] earlier[x] == hosts[x] by {}
    let (nodes2, parent) = if h.group_path.len() == 0 {
        (nodes1, 0usize)
    } else {
        lemma_ensure_path_wf(nodes1, 0, h.group_path, 0, None);
        ensure_path(nodes1, 0, h.group_path, 0, None)
    };
    lemma_carry_fields_extended(nodes1, nodes2, earlier, hosts);
    if nodes2.len() < usize::MAX {
        let n = NodeView {
            id: nodes2.len() as usize,
            name: h.alias,
            description: h.description,
            parent: Some(parent),
            children: Seq::empty(),
            kind: NodeKind::Host(earlier.len() as usize),
            search_fields: host_fields(h),
        };
        assert((parent as int) < nodes2.len());
        let r = add_child(nodes2, parent, n);
        assert(r == host_step(nodes1, h, earlier.len() as usize));
        assert forall|i: int| 0 <= i < r.len() && (#[trigger] r[i]).kind is Host implies {
            &&& (r[i].kind->0 as int) < hosts.len()
            &&& r[i].search_fields == host_fields(hosts[r[i].kind->0 as int])
        } by {
            if i < nodes2.len() {
                if i == parent as int {
                    assert(r[i] == NodeView { children: nodes2[i].children.push(n.id), ..nodes2[i] });
                } else {
                    assert(r[i] == nodes2[i]);
                }
                assert(nodes2[i].kind is Host);
            } else {
                assert(r[i] == n);
                assert(hosts[earlier.len() as int] == h);
            }
        }
    }
}

proof fn lemma_add_hosts_fields(nodes: Seq<NodeView>, hosts: Seq<HostView>)
    requires
        tree_wf(nodes),
        hosts.len() <= usize::MAX,
        forall|i: int| 0 <= i < nodes.len() ==> (#[trigger] nodes[i]).kind !is Host,
    ensures
        host_nodes_carry_fields(add_hosts(nodes, hosts), hosts),
    decreases hosts.len(),
{
    if hosts.len() > 0 {
        let earlier = hosts.drop_last();
        lemma_add_hosts_fields(nodes, earlier);
        lemma_add_hosts_wf(nodes, earlier);
        let nodes1 = add_hosts(nodes, earlier);
        assert(add_hosts(nodes, hosts) == host_step(nodes1, hosts.last(), (hosts.len() - 1) as usize));
        lemma_host_fields_step(nodes1, earlier, hosts.last());
        assert(earlier.push(hosts.last()) =~= hosts);
    } else {
        assert forall|i: int| 0 <= i < nodes.len() && (#[trigger] nodes[i]).kind is Host implies false by {}
    }
}

/// In the tree of a configuration, a host node is found by a search that
/// its host's host name matches, and carries that host name among its
/// search fields.
pub proof fn law_hosts_are_found_by_host_name(
    config: SshConfigView,
    nodes: Seq<NodeView>,
    i: int,
    query: Seq<char>,
)
    requires
        ordered_tree_of(unsorted_tree(config), nodes),
        config.hosts.len() <= usize::MAX,
        0 <= i < nodes.len(),
        nodes[i].kind is Host,
    ensures
        (nodes[i].kind->0 as int) < config.hosts.len(),
        ({
            let h = config.hosts[nodes[i].kind->0 as int];
            h.resolved.host_name matches Some(n) ==> (n.len() > 0 ==> {
                &&& nodes[i].search_fields.contains(n)
                &&& (query.len() > 0 && fuzzy_match(n, query) is Some ==> node_match(
                    nodes[i],
                    query,
                ).0)
            })
        }),
{
    lemma_add_groups_wf(config.groups);
    let groups = add_groups(config.groups).0;
    assert forall|x: int| 0 <= x < groups.len() implies (#[trigger] groups[x]).kind !is Host by {
        if x > 0 {
            assert(groups[x].kind is Group);
        }
    }
    lemma_add_hosts_fields(groups, config.hosts);
    let unsorted = unsorted_tree(config);
    assert(nodes[i] == NodeView { children: nodes[i].children, ..unsorted[i] });
    assert(unsorted[i].kind is Host);
    let h = config.hosts[nodes[i].kind->0 as int];
    law_host_fields_name_the_host(h);
    if let Some(n) = h.resolved.host_name {
        if n.len() > 0 && query.len() > 0 && fuzzy_match(n, query) is Some {
            let fs = nodes[i].search_fields;
            let t = choose|t: int| 0 <= t < fs.len() && fs[t] == n;
            assert(fuzzy_match(fs[t], query) is Some);
        }
    }
}

/// Siblings are listed alphabetically, ignoring case, whatever their kind;
/// a group comes before a host whose name differs only in case or not at
/// all.
pub proof fn law_siblings_are_alphabetical(unsorted: Seq<NodeView>, nodes: Seq<NodeView>, p: int, a: int, b: int)
    requires
        ordered_tree_of(unsorted, nodes),
        0 <= p < nodes.len(),
        0 <= a < b < nodes[p].children.len(),
    ensures
        ({
            let x = nodes[nodes[p].children[a] as int];
            let y = nodes[nodes[p].children[b] as int];
            ||| crate::text::seq_lt(lowercase(x.name), lowercase(y.name))
            ||| lowercase(x.name) == lowercase(y.name) && (x.kind is Host ==> y.kind is Host)
        }),
{
    let cs = nodes[p].children;
    assert(crate::tree::sorted_ids(nodes, cs));
    assert(crate::tree::node_before(nodes, cs[a], cs[b]));
}

} // verus!
