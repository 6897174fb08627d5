//! The host tree: a root, the groups and the hosts of a configuration, held
//! in one vector and linked by index.
use vstd::prelude::*;

use crate::ssh_config::{GroupView, HostView, SshConfig, SshConfigView, opt_view};
use crate::text::{
    chars_of,
    compare_chars,
    join,
    join_strings,
    lemma_seq_lt_total,
    lemma_seq_lt_transitive,
    lowercase,
    owned,
    seq_lt,
    string_views,
    to_lowercase,
};

verus! {

broadcast use vstd::std_specs::hash::group_hash_axioms;

#[derive(Debug, Clone, Copy, PartialEq, Eq, Structural)]
pub enum NodeKind {
    Root,
    Group,
    Host(usize),
}

impl NodeKind {
    pub fn is_host(&self) -> (r: bool)
        ensures
            r == (*self is Host),
    {
        match self {
            NodeKind::Host(_) => true,
            _ => false,
        }
    }

    pub fn is_root(&self) -> (r: bool)
        ensures
            r == (*self is Root),
    {
        match self {
            NodeKind::Root => true,
            _ => false,
        }
    }

    pub fn is_group(&self) -> (r: bool)
        ensures
            r == (*self is Group),
    {
        match self {
            NodeKind::Group => true,
            _ => false,
        }
    }
}

/// A node of the tree. `id` is its index; `children` are indices of nodes.
#[derive(Debug, Clone, PartialEq, Eq)]
pub struct Node {
    pub id: usize,
    pub name: String,
    pub description: Option<String>,
    pub parent: Option<usize>,
    pub children: Vec<usize>,
    pub kind: NodeKind,
    pub search_fields: Vec<String>,
}

pub struct NodeView {
    pub id: usize,
    pub name: Seq<char>,
    pub description: Option<Seq<char>>,
    pub parent: Option<usize>,
    pub children: Seq<usize>,
    pub kind: NodeKind,
    pub search_fields: Seq<Seq<char>>,
}

impl View for Node {
    type V = NodeView;

    open spec fn view(&self) -> NodeView {
        NodeView {
            id: self.id,
            name: self.name@,
            description: opt_view(self.description),
            parent: self.parent,
            children: self.children@,
            kind: self.kind,
            search_fields: string_views(self.search_fields@),
        }
    }
}

pub open spec fn node_views(n: Seq<Node>) -> Seq<NodeView> {
    n.map_values(|x: Node| x@)
}

/// A row of the tree as it is shown.
#[derive(Debug, Clone, PartialEq, Eq)]
pub struct VisibleRow {
    pub node_id: usize,
    pub depth: usize,
    pub matched_indices: Vec<usize>,
}

pub struct RowView {
    pub node_id: usize,
    pub depth: nat,
    pub matched: Seq<usize>,
}

impl View for VisibleRow {
    type V = RowView;

    open spec fn view(&self) -> RowView {
        RowView { node_id: self.node_id, depth: self.depth as nat, matched: self.matched_indices@ }
    }
}

pub open spec fn row_views(rows: Seq<VisibleRow>) -> Seq<RowView> {
    rows.map_values(|r: VisibleRow| r@)
}

// ---------------------------------------------------------------------------
// Shape
// ---------------------------------------------------------------------------

pub open spec fn is_group_kind(k: NodeKind) -> bool {
    k is Group
}

/// A well-formed tree: node 0 is the root; every other node has a parent
/// of smaller index that lists it among its children; every child has a
/// larger index than its parent and names it as parent; no child is listed
/// twice.
pub open spec fn tree_wf(nodes: Seq<NodeView>) -> bool {
    &&& nodes.len() > 0
    &&& nodes[0].kind is Root
    &&& nodes[0].parent is None
    &&& forall|i: int| 0 <= i < nodes.len() ==> (#[trigger] nodes[i]).id == i
    &&& forall|i: int|
        0 < i < nodes.len() ==> {
            &&& !((#[trigger] nodes[i]).kind is Root)
            &&& nodes[i].parent is Some
            &&& (nodes[i].parent->0 as int) < i
            &&& nodes[nodes[i].parent->0 as int].children.contains(i as usize)
        }
    &&& forall|i: int, j: int|
        0 <= i < nodes.len() && 0 <= j < nodes[i].children.len() ==> {
            &&& i < (#[trigger] nodes[i].children[j]) < nodes.len()
            &&& nodes[nodes[i].children[j] as int].parent == Some(i as usize)
        }
    &&& forall|i: int| 0 <= i < nodes.len() ==> (#[trigger] nodes[i]).children.no_duplicates()
}

/// Every host node names a host of the configuration.
pub open spec fn hosts_in_range(nodes: Seq<NodeView>, host_count: nat) -> bool {
    forall|i: int|
        0 <= i < nodes.len() && (#[trigger] nodes[i]).kind is Host ==> (nodes[i].kind->0 as nat)
            < host_count
}

// ---------------------------------------------------------------------------
// Construction
// ---------------------------------------------------------------------------

pub open spec fn root_name() -> Seq<char> {
    seq!['A', 'l', 'l', ' ', 'H', 'o', 's', 't', 's']
}

pub open spec fn root_node() -> NodeView {
    NodeView {
        id: 0,
        name: root_name(),
        description: None,
        parent: None,
        children: Seq::empty(),
        kind: NodeKind::Root,
        search_fields: Seq::empty(),
    }
}

pub open spec fn opt_seq(o: Option<Seq<char>>) -> Seq<Seq<char>> {
    match o {
        Some(s) => seq![s],
        None => Seq::empty(),
    }
}

/// The fields that are not empty, in order.
pub open spec fn nonempty_fields(fs: Seq<Seq<char>>) -> Seq<Seq<char>>
    decreases fs.len(),
{
    if fs.len() == 0 {
        Seq::empty()
    } else {
        let rest = nonempty_fields(fs.drop_last());
        if fs.last().len() > 0 {
            rest.push(fs.last())
        } else {
            rest
        }
    }
}

/// Search fields of a group node: its path, its name, its description.
pub open spec fn group_fields(path: Seq<Seq<char>>, description: Option<Seq<char>>) -> Seq<
    Seq<char>,
> {
    nonempty_fields(seq![join(path, seq!['/']), path.last()] + opt_seq(description))
}

/// Search fields of a host node: alias, description, group path, host name
/// and user.
pub open spec fn host_fields(h: HostView) -> Seq<Seq<char>> {
    nonempty_fields(
        seq![h.alias] + opt_seq(h.description) + seq![join(h.group_path, seq!['/'])] + opt_seq(
            h.resolved.host_name,
        ) + opt_seq(h.resolved.user),
    )
}

/// The first child of `parent`, among `cs[k..]`, that is a group named
/// `name`.
pub open spec fn first_child_group(nodes: Seq<NodeView>, cs: Seq<usize>, name: Seq<char>, k: int) -> Option<usize>
    decreases cs.len() - k,
{
    if k < 0 || k >= cs.len() {
        None
    } else if (cs[k] as int) < nodes.len() && nodes[cs[k] as int].kind is Group && nodes[cs[k] as int].name == name {
        Some(cs[k])
    } else {
        first_child_group(nodes, cs, name, k + 1)
    }
}

/// Appends `n` as the last child of `parent`.
pub open spec fn add_child(nodes: Seq<NodeView>, parent: usize, n: NodeView) -> Seq<NodeView> {
    nodes.update(
        parent as int,
        NodeView { children: nodes[parent as int].children.push(n.id), ..nodes[parent as int] },
    ).push(n)
}

/// Walks the group path `segs[k..]` down from `parent`, creating each group
/// that does not exist yet; the last one created gets `description`.
/// Returns the nodes and the group reached.
pub open spec fn ensure_path(
    nodes: Seq<NodeView>,
    parent: usize,
    segs: Seq<Seq<char>>,
    k: int,
    description: Option<Seq<char>>,
) -> (Seq<NodeView>, usize)
    decreases segs.len() - k,
{
    if k < 0 || k >= segs.len() || parent as int >= nodes.len() || nodes.len() >= usize::MAX {
        (nodes, parent)
    } else {
        let seg = segs[k];
        match first_child_group(nodes, nodes[parent as int].children, seg, 0) {
            Some(c) => ensure_path(nodes, c, segs, k + 1, description),
            None => {
                let id = nodes.len() as usize;
                let desc = if k + 1 == segs.len() {
                    description
                } else {
                    None
                };
                let n = NodeView {
                    id,
                    name: seg,
                    description: desc,
                    parent: Some(parent),
                    children: Seq::empty(),
                    kind: NodeKind::Group,
                    search_fields: group_fields(segs.take(k + 1), desc),
                };
                ensure_path(add_child(nodes, parent, n), id, segs, k + 1, description)
            },
        }
    }
}

/// The names from the top of the tree down to a node, the root left out.
pub open spec fn path_names(nodes: Seq<NodeView>, id: usize) -> Seq<Seq<char>>
    decreases id,
{
    if id >= nodes.len() {
        Seq::empty()
    } else {
        let here = if nodes[id as int].kind is Root {
            Seq::empty()
        } else {
            seq![nodes[id as int].name]
        };
        match nodes[id as int].parent {
            Some(p) => if p < id {
                path_names(nodes, p) + here
            } else {
                here
            },
            None => here,
        }
    }
}

/// The node and its ancestors, the root left out.
pub open spec fn ancestors(nodes: Seq<NodeView>, id: usize) -> Set<usize>
    decreases id,
{
    if id == 0 || id as int >= nodes.len() {
        Set::empty()
    } else {
        match nodes[id as int].parent {
            Some(p) => if p < id {
                ancestors(nodes, p).insert(id)
            } else {
                set![id]
            },
            None => set![id],
        }
    }
}

/// The groups of the configuration, in order: nodes, the set of expanded
/// nodes and the groups that start expanded.
pub open spec fn add_groups(groups: Seq<GroupView>) -> (Seq<NodeView>, Set<usize>, Seq<usize>)
    decreases groups.len(),
{
    if groups.len() == 0 {
        (seq![root_node()], Set::empty(), Seq::empty())
    } else {
        let (nodes, expanded, initial) = add_groups(groups.drop_last());
        let g = groups.last();
        let (nodes2, id) = ensure_path(nodes, 0, g.path, 0, g.description);
        if g.expanded_by_default {
            (nodes2, expanded.union(ancestors(nodes2, id)), initial.push(id))
        } else {
            (nodes2, expanded, initial)
        }
    }
}

/// The hosts of the configuration, in order, each below its group.
pub open spec fn add_hosts(nodes: Seq<NodeView>, hosts: Seq<HostView>) -> Seq<NodeView>
    decreases hosts.len(),
{
    if hosts.len() == 0 {
        nodes
    } else {
        let nodes1 = add_hosts(nodes, hosts.drop_last());
        let h = hosts.last();
        let (nodes2, parent) = if h.group_path.len() == 0 {
            (nodes1, 0usize)
        } else {
            ensure_path(nodes1, 0, h.group_path, 0, None)
        };
        if nodes2.len() >= usize::MAX {
            nodes2
        } else {
            add_child(
            nodes2,
            parent,
            NodeView {
                id: nodes2.len() as usize,
                name: h.alias,
                description: h.description,
                parent: Some(parent),
                children: Seq::empty(),
                kind: NodeKind::Host((hosts.len() - 1) as usize),
                search_fields: host_fields(h),
            },
        )
        }
    }
}

/// The tree before its children are ordered.
pub open spec fn unsorted_tree(config: SshConfigView) -> Seq<NodeView> {
    add_hosts(add_groups(config.groups).0, config.hosts)
}

// ---------------------------------------------------------------------------
// Shape lemmas
// ---------------------------------------------------------------------------

/// Existing nodes keep their identity, name, kind and parent.
pub open spec fn extends(old_nodes: Seq<NodeView>, new_nodes: Seq<NodeView>) -> bool {
    &&& old_nodes.len() <= new_nodes.len()
    &&& forall|i: int|
        0 <= i < old_nodes.len() ==> {
            &&& (#[trigger] new_nodes[i]).id == old_nodes[i].id
            &&& new_nodes[i].name == old_nodes[i].name
            &&& new_nodes[i].kind == old_nodes[i].kind
            &&& new_nodes[i].parent == old_nodes[i].parent
            &&& new_nodes[i].description == old_nodes[i].description
            &&& new_nodes[i].search_fields == old_nodes[i].search_fields
        }
}

pub proof fn lemma_add_child_wf(nodes: Seq<NodeView>, parent: usize, n: NodeView)
    requires
        tree_wf(nodes),
        (parent as int) < nodes.len(),
        n.id == nodes.len(),
        n.parent == Some(parent),
        n.children.len() == 0,
        !(n.kind is Root),
    ensures
        tree_wf(add_child(nodes, parent, n)),
        extends(nodes, add_child(nodes, parent, n)),
        add_child(nodes, parent, n).len() == nodes.len() + 1,
{
    let r = add_child(nodes, parent, n);
    let pc = nodes[parent as int].children;
    assert(!pc.contains(n.id)) by {
        if pc.contains(n.id) {
            let j = choose|j: int| 0 <= j < pc.len() && pc[j] == n.id;
            assert(nodes[parent as int].children[j] < nodes.len());
        }
    }
    assert(r[parent as int].children == pc.push(n.id));
    assert forall|i: int| 0 < i < r.len() implies {
        &&& !((#[trigger] r[i]).kind is Root)
        &&& r[i].parent is Some
        &&& (r[i].parent->0 as int) < i
        &&& r[r[i].parent->0 as int].children.contains(i as usize)
    } by {
        if i < nodes.len() {
            let p = nodes[i].parent->0;
            assert(nodes[p as int].children.contains(i as usize));
            if p == parent {
                let j = choose|j: int| 0 <= j < pc.len() && pc[j] == i as usize;
                assert(r[p as int].children[j] == i as usize);
            }
        } else {
            assert(r[parent as int].children[pc.len() as int] == n.id);
        }
    }
    assert forall|i: int, j: int| 0 <= i < r.len() && 0 <= j < r[i].children.len() implies {
        &&& i < (#[trigger] r[i].children[j]) < r.len()
        &&& r[r[i].children[j] as int].parent == Some(i as usize)
    } by {
        if i == parent && j == pc.len() {
        } else if i < nodes.len() {
            assert(r[i].children[j] == nodes[i].children[j]);
        }
    }
    assert forall|i: int| 0 <= i < r.len() implies (#[trigger] r[i]).children.no_duplicates() by {
        if i == parent {
            assert forall|a: int, b: int|
                0 <= a < b < r[i].children.len() implies r[i].children[a]
                != r[i].children[b] by {
                if b == pc.len() {
                    assert(pc[a] < nodes.len());
                } else {
                    assert(nodes[i].children.no_duplicates());
                }
            }
        }
    }
}

pub proof fn lemma_first_child_group(nodes: Seq<NodeView>, cs: Seq<usize>, name: Seq<char>, k: int)
    ensures
        first_child_group(nodes, cs, name, k) matches Some(c) ==> (c as int) < nodes.len()
            && cs.contains(c) && nodes[c as int].kind is Group && nodes[c as int].name == name,
    decreases cs.len() - k,
{
    if 0 <= k < cs.len() {
        lemma_first_child_group(nodes, cs, name, k + 1);
    }
}

pub proof fn lemma_ensure_path_wf(
    nodes: Seq<NodeView>,
    parent: usize,
    segs: Seq<Seq<char>>,
    k: int,
    description: Option<Seq<char>>,
)
    requires
        tree_wf(nodes),
        (parent as int) < nodes.len(),
        0 <= k,
    ensures
        tree_wf(ensure_path(nodes, parent, segs, k, description).0),
        extends(nodes, ensure_path(nodes, parent, segs, k, description).0),
        (ensure_path(nodes, parent, segs, k, description).1 as int) < ensure_path(
            nodes,
            parent,
            segs,
            k,
            description,
        ).0.len(),
        forall|i: int|
            nodes.len() <= i < ensure_path(nodes, parent, segs, k, description).0.len()
                ==> #[trigger] ensure_path(nodes, parent, segs, k, description).0[i].kind is Group,
    decreases segs.len() - k,
{
    if k < segs.len() && nodes.len() < usize::MAX {
        let seg = segs[k];
        lemma_first_child_group(nodes, nodes[parent as int].children, seg, 0);
        match first_child_group(nodes, nodes[parent as int].children, seg, 0) {
            Some(c) => {
                lemma_ensure_path_wf(nodes, c, segs, k + 1, description);
            },
            None => {
                let id = nodes.len() as usize;
                let desc = if k + 1 == segs.len() {
                    description
                } else {
                    None
                };
                let n = NodeView {
                    id,
                    name: seg,
                    description: desc,
                    parent: Some(parent),
                    children: Seq::empty(),
                    kind: NodeKind::Group,
                    search_fields: group_fields(segs.take(k + 1), desc),
                };
                lemma_add_child_wf(nodes, parent, n);
                let n1 = add_child(nodes, parent, n);
                lemma_ensure_path_wf(n1, id, segs, k + 1, description);
                let r = ensure_path(n1, id, segs, k + 1, description).0;
                assert forall|i: int| 0 <= i < nodes.len() implies {
                    &&& (#[trigger] r[i]).id == nodes[i].id
                    &&& r[i].name == nodes[i].name
                    &&& r[i].kind == nodes[i].kind
                    &&& r[i].parent == nodes[i].parent
                    &&& r[i].description == nodes[i].description
                    &&& r[i].search_fields == nodes[i].search_fields
                } by {
                    assert(n1[i].id == nodes[i].id);
                }
            },
        }
    }
}

pub proof fn lemma_add_groups_wf(groups: Seq<GroupView>)
    ensures
        tree_wf(add_groups(groups).0),
        forall|i: int|
            0 < i < add_groups(groups).0.len() ==> #[trigger] add_groups(groups).0[i].kind is Group,
    decreases groups.len(),
{
    if groups.len() == 0 {
        let r = seq![root_node()];
        assert(r[0].children.no_duplicates());
    } else {
        lemma_add_groups_wf(groups.drop_last());
        let (nodes, expanded, initial) = add_groups(groups.drop_last());
        let g = groups.last();
        lemma_ensure_path_wf(nodes, 0, g.path, 0, g.description);
        let r = ensure_path(nodes, 0, g.path, 0, g.description).0;
        assert forall|i: int| 0 < i < r.len() implies #[trigger] r[i].kind is Group by {
            if i < nodes.len() {
                assert(nodes[i].kind is Group);
            }
        }
    }
}

pub proof fn lemma_add_hosts_wf(nodes: Seq<NodeView>, hosts: Seq<HostView>)
    requires
        tree_wf(nodes),
        forall|i: int| 0 <= i < nodes.len() ==> (#[trigger] nodes[i]).kind !is Host,
    ensures
        tree_wf(add_hosts(nodes, hosts)),
        hosts_in_range(add_hosts(nodes, hosts), hosts.len()),
        extends(nodes, add_hosts(nodes, hosts)),
    decreases hosts.len(),
{
    if hosts.len() > 0 {
        lemma_add_hosts_wf(nodes, hosts.drop_last());
        let nodes1 = add_hosts(nodes, hosts.drop_last());
        let h = hosts.last();
        if h.group_path.len() != 0 {
            lemma_ensure_path_wf(nodes1, 0, h.group_path, 0, None);
        }
        let (nodes2, parent) = if h.group_path.len() == 0 {
            (nodes1, 0usize)
        } else {
            ensure_path(nodes1, 0, h.group_path, 0, None)
        };
        if nodes2.len() >= usize::MAX {
            let r = nodes2;
            assert forall|i: int| 0 <= i < r.len() && (#[trigger] r[i]).kind is Host implies (
            r[i].kind->0 as nat) < hosts.len() by {
                if i < nodes1.len() {
                    assert(r[i].kind == nodes1[i].kind);
                } else {
                    assert(nodes2[i].kind is Group);
                }
            }
            assert forall|i: int| 0 <= i < nodes.len() implies {
                &&& (#[trigger] r[i]).id == nodes[i].id
                &&& r[i].name == nodes[i].name
                &&& r[i].kind == nodes[i].kind
                &&& r[i].parent == nodes[i].parent
                &&& r[i].description == nodes[i].description
                &&& r[i].search_fields == nodes[i].search_fields
            } by {
                assert(nodes1[i].id == nodes[i].id);
            }
            return ;
        }
        let n = NodeView {
            id: nodes2.len() as usize,
            name: h.alias,
            description: h.description,
            parent: Some(parent),
            children: Seq::empty(),
            kind: NodeKind::Host((hosts.len() - 1) as usize),
            search_fields: host_fields(h),
        };
        lemma_add_child_wf(nodes2, parent, n);
        let r = add_child(nodes2, parent, n);
        assert forall|i: int| 0 <= i < r.len() && (#[trigger] r[i]).kind is Host implies (
        r[i].kind->0 as nat) < hosts.len() by {
            if i < nodes1.len() {
                assert(r[i].kind == nodes1[i].kind);
            } else if i < nodes2.len() {
                assert(nodes2[i].kind is Group);
            }
        }
        assert forall|i: int| 0 <= i < nodes.len() implies {
            &&& (#[trigger] r[i]).id == nodes[i].id
            &&& r[i].name == nodes[i].name
            &&& r[i].kind == nodes[i].kind
            &&& r[i].parent == nodes[i].parent
            &&& r[i].description == nodes[i].description
            &&& r[i].search_fields == nodes[i].search_fields
        } by {
            assert(nodes1[i].id == nodes[i].id);
            assert(nodes2[i].id == nodes1[i].id);
        }
    } else {
        assert forall|i: int| 0 <= i < nodes.len() && (#[trigger] nodes[i]).kind is Host implies (
        nodes[i].kind->0 as nat) < hosts.len() by {}
    }
}

// ---------------------------------------------------------------------------
// Executable construction
// ---------------------------------------------------------------------------

fn clone_strings(v: &Vec<String>) -> (r: Vec<String>)
    ensures
        string_views(r@) == string_views(v@),
{
    let mut r: Vec<String> = Vec::new();
    let mut i: usize = 0;
    while i < v.len()
        invariant
            i <= v.len(),
            string_views(r@) == string_views(v@).take(i as int),
        decreases v.len() - i,
    {
        let c = v[i].clone();
        let ghost before = r@;
        r.push(c);
        assert(r@ =~= before.push(c));
        assert(string_views(r@) =~= string_views(before).push(c@));
        assert(string_views(v@).take(i + 1) =~= string_views(v@).take(i as int).push(v@[i as int]@));
        i = i + 1;
    }
    assert(string_views(v@).take(i as int) =~= string_views(v@));
    r
}

fn clone_opt_string(o: &Option<String>) -> (r: Option<String>)
    ensures
        opt_view(r) == opt_view(*o),
{
    match o {
        Some(s) => Some(s.clone()),
        None => None,
    }
}

fn nonempty_fields_exec(fs: &Vec<String>) -> (r: Vec<String>)
    ensures
        string_views(r@) == nonempty_fields(string_views(fs@)),
{
    let mut r: Vec<String> = Vec::new();
    let mut i: usize = 0;
    while i < fs.len()
        invariant
            i <= fs.len(),
            string_views(r@) == nonempty_fields(string_views(fs@).take(i as int)),
        decreases fs.len() - i,
    {
        assert(string_views(fs@).take(i + 1).drop_last() =~= string_views(fs@).take(i as int));
        assert(string_views(fs@).take(i + 1).last() == fs@[i as int]@);
        if !fs[i].as_str().is_empty() {
            let c = fs[i].clone();
            let ghost before = r@;
            r.push(c);
            assert(r@ =~= before.push(c));
            assert(string_views(r@) =~= string_views(before).push(c@));
        }
        i = i + 1;
    }
    assert(string_views(fs@).take(i as int) =~= string_views(fs@));
    r
}

fn push_opt(v: &mut Vec<String>, o: &Option<String>)
    ensures
        string_views(final(v)@) == string_views(old(v)@) + opt_seq(opt_view(*o)),
{
    match o {
        Some(s) => {
            let c = s.clone();
            let ghost before = v@;
            v.push(c);
            assert(v@ =~= before.push(c));
            assert(string_views(v@) =~= string_views(before) + seq![c@]);
        },
        None => {
            assert(string_views(v@) =~= string_views(v@) + Seq::<Seq<char>>::empty());
        },
    }
}

fn slash_join(parts: &Vec<String>) -> (r: String)
    ensures
        r@ == join(string_views(parts@), seq!['/']),
{
    proof {
        reveal_strlit("/");
    }
    assert("/"@ =~= seq!['/']);
    join_strings(parts, "/")
}

fn prefix_strings(v: &Vec<String>, n: usize) -> (r: Vec<String>)
    requires
        n <= v.len(),
    ensures
        string_views(r@) == string_views(v@).take(n as int),
{
    let mut r: Vec<String> = Vec::new();
    let mut i: usize = 0;
    while i < n
        invariant
            i <= n <= v.len(),
            string_views(r@) == string_views(v@).take(i as int),
        decreases n - i,
    {
        let c = v[i].clone();
        let ghost before = r@;
        r.push(c);
        assert(r@ =~= before.push(c));
        assert(string_views(r@) =~= string_views(before).push(c@));
        assert(string_views(v@).take(i + 1) =~= string_views(v@).take(i as int).push(v@[i as int]@));
        i = i + 1;
    }
    r
}

fn group_fields_exec(path: &Vec<String>, description: &Option<String>) -> (r: Vec<String>)
    requires
        path.len() > 0,
    ensures
        string_views(r@) == group_fields(string_views(path@), opt_view(*description)),
{
    let mut fs: Vec<String> = Vec::new();
    fs.push(slash_join(path));
    fs.push(path[path.len() - 1].clone());
    push_opt(&mut fs, description);
    assert(string_views(fs@) =~= seq![
        join(string_views(path@), seq!['/']),
        string_views(path@).last(),
    ] + opt_seq(opt_view(*description)));
    nonempty_fields_exec(&fs)
}

fn host_fields_exec(h: &crate::ssh_config::HostEntry) -> (r: Vec<String>)
    ensures
        string_views(r@) == host_fields(h@),
{
    let mut fs: Vec<String> = Vec::new();
    let a = h.alias.clone();
    fs.push(a);
    assert(string_views(fs@) =~= seq![h@.alias]);
    push_opt(&mut fs, &h.description);
    let g = slash_join(&h.group_path);
    let ghost f1 = fs@;
    fs.push(g);
    assert(fs@ =~= f1.push(g));
    assert(string_views(fs@) =~= string_views(f1) + seq![join(h@.group_path, seq!['/'])]);
    push_opt(&mut fs, &h.resolved.host_name);
    push_opt(&mut fs, &h.resolved.user);
    assert(string_views(fs@) =~= seq![h@.alias] + opt_seq(h@.description) + seq![
        join(h@.group_path, seq!['/']),
    ] + opt_seq(h@.resolved.host_name) + opt_seq(h@.resolved.user));
    nonempty_fields_exec(&fs)
}

fn find_child_group_exec(nodes: &Vec<Node>, parent: usize, name: &String) -> (r: Option<usize>)
    requires
        (parent as int) < nodes.len(),
    ensures
        r == first_child_group(node_views(nodes@), nodes@[parent as int].children@, name@, 0),
{
    let ghost nv = node_views(nodes@);
    let cs = &nodes[parent].children;
    let mut k: usize = 0;
    while k < cs.len()
        invariant
            k <= cs.len(),
            nv == node_views(nodes@),
            cs@ == nodes@[parent as int].children@,
            first_child_group(nv, cs@, name@, k as int) == first_child_group(nv, cs@, name@, 0),
        decreases cs.len() - k,
    {
        let c = cs[k];
        if c < nodes.len() && nodes[c].kind == NodeKind::Group && nodes[c].name == *name {
            return Some(c);
        }
        k = k + 1;
    }
    None
}

fn add_child_exec(nodes: &mut Vec<Node>, parent: usize, n: Node)
    requires
        (parent as int) < old(nodes).len(),
        n.id == old(nodes).len(),
    ensures
        node_views(final(nodes)@) == add_child(node_views(old(nodes)@), parent, n@),
{
    let ghost before = nodes@;
    let id = n.id;
    nodes[parent].children.push(id);
    let ghost mid = nodes@;
    nodes.push(n);
    assert(node_views(nodes@) =~= add_child(node_views(before), parent, n@));
}

fn ensure_group_path(
    nodes: &mut Vec<Node>,
    parent: usize,
    segs: &Vec<String>,
    k: usize,
    description: &Option<String>,
) -> (r: usize)
    ensures
        (node_views(final(nodes)@), r) == ensure_path(
            node_views(old(nodes)@),
            parent,
            string_views(segs@),
            k as int,
            opt_view(*description),
        ),
    decreases segs.len() - k,
{
    if k >= segs.len() || parent >= nodes.len() || nodes.len() == usize::MAX {
        return parent;
    }
    let seg = &segs[k];
    match find_child_group_exec(nodes, parent, seg) {
        Some(c) => ensure_group_path(nodes, c, segs, k + 1, description),
        None => {
            let id = nodes.len();
            let desc = if k + 1 == segs.len() {
                clone_opt_string(description)
            } else {
                None
            };
            let prefix = prefix_strings(segs, k + 1);
            assert(string_views(prefix@).len() == k + 1);
            let fields = group_fields_exec(&prefix, &desc);
            assert(string_views(prefix@).last() == segs@[k as int]@);
            let n = Node {
                id,
                name: seg.clone(),
                description: desc,
                parent: Some(parent),
                children: Vec::new(),
                kind: NodeKind::Group,
                search_fields: fields,
            };
            assert(n@.children =~= Seq::<usize>::empty());
            add_child_exec(nodes, parent, n);
            ensure_group_path(nodes, id, segs, k + 1, description)
        },
    }
}

fn expand_with_ancestors(nodes: &Vec<Node>, id: usize, expanded: &mut std::collections::HashSet<usize>)
    ensures
        final(expanded)@ == old(expanded)@.union(ancestors(node_views(nodes@), id)),
{
    let ghost nv = node_views(nodes@);
    let mut current = id;
    while current != 0 && current < nodes.len()
        invariant
            nv == node_views(nodes@),
            expanded@.union(ancestors(nv, current)) == old(expanded)@.union(ancestors(nv, id)),
        decreases current,
    {
        let ghost before = expanded@;
        expanded.insert(current);
        match nodes[current].parent {
            Some(p) => {
                if p < current {
                    assert(ancestors(nv, current) == ancestors(nv, p).insert(current));
                    assert(expanded@.union(ancestors(nv, p)) =~= before.union(ancestors(nv, current)));
                    current = p;
                } else {
                    assert(ancestors(nv, current) == set![current]);
                    assert(expanded@.union(Set::empty()) =~= before.union(ancestors(nv, current)));
                    assert(ancestors(nv, 0) == Set::<usize>::empty());
                    current = 0;
                }
            },
            None => {
                assert(ancestors(nv, current) == set![current]);
                assert(expanded@.union(Set::empty()) =~= before.union(ancestors(nv, current)));
                assert(ancestors(nv, 0) == Set::<usize>::empty());
                current = 0;
            },
        }
    }
    assert(ancestors(nv, current) == Set::<usize>::empty());
    assert(expanded@.union(Set::empty()) =~= expanded@);
}

// ---------------------------------------------------------------------------
// Order of siblings
// ---------------------------------------------------------------------------

/// Groups rank before hosts.
pub open spec fn kind_order(k: NodeKind) -> int {
    if k is Host {
        1
    } else {
        0
    }
}

/// Sibling order: by lower-cased name, then groups before hosts, then by
/// name, then by creation (index).
pub open spec fn node_before(nodes: Seq<NodeView>, a: usize, b: usize) -> bool {
    let na = nodes[a as int];
    let nb = nodes[b as int];
    let la = lowercase(na.name);
    let lb = lowercase(nb.name);
    ||| seq_lt(la, lb)
    ||| la == lb && kind_order(na.kind) < kind_order(nb.kind)
    ||| la == lb && kind_order(na.kind) == kind_order(nb.kind) && seq_lt(na.name, nb.name)
    ||| la == lb && kind_order(na.kind) == kind_order(nb.kind) && na.name == nb.name && a < b
}

pub proof fn lemma_node_before_order(nodes: Seq<NodeView>, a: usize, b: usize, c: usize)
    ensures
        a != b ==> node_before(nodes, a, b) || node_before(nodes, b, a),
        !(node_before(nodes, a, b) && node_before(nodes, b, a)),
        node_before(nodes, a, b) && node_before(nodes, b, c) ==> node_before(nodes, a, c),
{
    let la = lowercase(nodes[a as int].name);
    let lb = lowercase(nodes[b as int].name);
    let lc = lowercase(nodes[c as int].name);
    lemma_seq_lt_total(la, lb);
    lemma_seq_lt_total(lb, lc);
    lemma_seq_lt_total(la, lc);
    lemma_seq_lt_total(nodes[a as int].name, nodes[b as int].name);
    lemma_seq_lt_total(nodes[b as int].name, nodes[c as int].name);
    lemma_seq_lt_total(nodes[a as int].name, nodes[c as int].name);
    if seq_lt(la, lb) && seq_lt(lb, lc) {
        lemma_seq_lt_transitive(la, lb, lc);
    }
    if seq_lt(nodes[a as int].name, nodes[b as int].name) && seq_lt(
        nodes[b as int].name,
        nodes[c as int].name,
    ) {
        lemma_seq_lt_transitive(nodes[a as int].name, nodes[b as int].name, nodes[c as int].name);
    }
}

/// The children are in sibling order.
pub open spec fn sorted_ids(nodes: Seq<NodeView>, cs: Seq<usize>) -> bool {
    forall|a: int, b: int| 0 <= a < b < cs.len() ==> node_before(nodes, #[trigger] cs[a], #[trigger] cs[b])
}

/// Same elements, each once.
pub open spec fn same_members(a: Seq<usize>, b: Seq<usize>) -> bool {
    &&& a.len() == b.len()
    &&& forall|x: usize| a.contains(x) <==> b.contains(x)
}

/// `sorted` is `unsorted` with the children of every node put in sibling
/// order.
pub open spec fn ordered_tree_of(unsorted: Seq<NodeView>, sorted: Seq<NodeView>) -> bool {
    &&& sorted.len() == unsorted.len()
    &&& forall|i: int|
        0 <= i < sorted.len() ==> {
            &&& #[trigger] sorted[i] == (NodeView { children: sorted[i].children, ..unsorted[i] })
            &&& same_members(sorted[i].children, unsorted[i].children)
            &&& sorted[i].children.no_duplicates()
            &&& sorted_ids(sorted, sorted[i].children)
        }
}

fn kind_rank(k: NodeKind) -> (r: u8)
    ensures
        r as int == kind_order(k),
{
    match k {
        NodeKind::Host(_) => 1,
        _ => 0,
    }
}

fn before_exec(
    nodes: &Vec<Node>,
    lows: &Vec<Vec<char>>,
    names: &Vec<Vec<char>>,
    a: usize,
    b: usize,
) -> (r: bool)
    requires
        (a as int) < nodes.len(),
        (b as int) < nodes.len(),
        lows.len() == nodes.len(),
        names.len() == nodes.len(),
        forall|i: int| 0 <= i < nodes.len() ==> (#[trigger] lows@[i])@ == lowercase(nodes@[i].name@),
        forall|i: int| 0 <= i < nodes.len() ==> (#[trigger] names@[i])@ == nodes@[i].name@,
    ensures
        r == node_before(node_views(nodes@), a, b),
{
    let c = compare_chars(&lows[a], &lows[b]);
    if c != 0 {
        return c == -1;
    }
    let ra = kind_rank(nodes[a].kind);
    let rb = kind_rank(nodes[b].kind);
    if ra != rb {
        return ra < rb;
    }
    let d = compare_chars(&names[a], &names[b]);
    if d != 0 {
        return d == -1;
    }
    a < b
}

fn sort_children(
    ids: &Vec<usize>,
    nodes: &Vec<Node>,
    lows: &Vec<Vec<char>>,
    names: &Vec<Vec<char>>,
) -> (r: Vec<usize>)
    requires
        ids@.no_duplicates(),
        forall|k: int| 0 <= k < ids.len() ==> (#[trigger] ids@[k] as int) < nodes.len(),
        lows.len() == nodes.len(),
        names.len() == nodes.len(),
        forall|i: int| 0 <= i < nodes.len() ==> (#[trigger] lows@[i])@ == lowercase(nodes@[i].name@),
        forall|i: int| 0 <= i < nodes.len() ==> (#[trigger] names@[i])@ == nodes@[i].name@,
    ensures
        same_members(r@, ids@),
        r@.no_duplicates(),
        sorted_ids(node_views(nodes@), r@),
{
    let ghost nv = node_views(nodes@);
    let mut res: Vec<usize> = Vec::new();
    let mut i: usize = 0;
    while i < ids.len()
        invariant
            i <= ids.len(),
            nv == node_views(nodes@),
            ids@.no_duplicates(),
            forall|k: int| 0 <= k < ids.len() ==> (#[trigger] ids@[k] as int) < nodes.len(),
            lows.len() == nodes.len(),
            names.len() == nodes.len(),
            forall|j: int| 0 <= j < nodes.len() ==> (#[trigger] lows@[j])@ == lowercase(nodes@[j].name@),
            forall|j: int| 0 <= j < nodes.len() ==> (#[trigger] names@[j])@ == nodes@[j].name@,
            same_members(res@, ids@.take(i as int)),
            res@.no_duplicates(),
            sorted_ids(nv, res@),
            forall|k: int| 0 <= k < res.len() ==> (#[trigger] res@[k] as int) < nodes.len(),
        decreases ids.len() - i,
    {
        let x = ids[i];
        assert(!res@.contains(x)) by {
            if res@.contains(x) {
                assert(ids@.take(i as int).contains(x));
                let k = choose|k: int| 0 <= k < i && ids@.take(i as int)[k] == x;
                assert(ids@[k] == ids@[i as int]);
            }
        }
        let mut pos: usize = 0;
        while pos < res.len() && !before_exec(nodes, lows, names, x, res[pos])
            invariant
                pos <= res.len(),
                nv == node_views(nodes@),
                (x as int) < nodes.len(),
                forall|k: int| 0 <= k < res.len() ==> (#[trigger] res@[k] as int) < nodes.len(),
                lows.len() == nodes.len(),
                names.len() == nodes.len(),
                forall|j: int| 0 <= j < nodes.len() ==> (#[trigger] lows@[j])@ == lowercase(nodes@[j].name@),
                forall|j: int| 0 <= j < nodes.len() ==> (#[trigger] names@[j])@ == nodes@[j].name@,
                forall|k: int| 0 <= k < pos ==> !node_before(nv, x, #[trigger] res@[k]),
            decreases res.len() - pos,
        {
            pos = pos + 1;
        }
        let ghost old_res = res@;
        res.insert(pos, x);
        assert(res@ =~= old_res.insert(pos as int, x));
        assert forall|a: int, b: int| 0 <= a < b < res@.len() implies node_before(
            nv,
            #[trigger] res@[a],
            #[trigger] res@[b],
        ) by {
            if a < pos && b == pos {
                lemma_node_before_order(nv, x, old_res[a], x);
                assert(old_res[a] != x);
            } else if a == pos && b > pos {
                if pos < old_res.len() {
                    lemma_node_before_order(nv, x, old_res[pos as int], old_res[b - 1]);
                }
            } else if a < pos && b > pos {
                assert(node_before(nv, old_res[a], old_res[b - 1]));
            } else if a > pos {
                assert(node_before(nv, old_res[a - 1], old_res[b - 1]));
            }
        }
        assert(ids@.take(i + 1) =~= ids@.take(i as int).push(x));
        assert forall|y: usize| res@.contains(y) <==> ids@.take(i + 1).contains(y) by {
            if res@.contains(y) {
                let k = choose|k: int| 0 <= k < res@.len() && res@[k] == y;
                if k < pos {
                    assert(old_res.contains(y));
                } else if k > pos {
                    assert(old_res[k - 1] == y);
                    assert(old_res.contains(y));
                }
                if y != x {
                    assert(ids@.take(i as int).contains(y));
                    let j = choose|j: int| 0 <= j < i && ids@.take(i as int)[j] == y;
                    assert(ids@.take(i + 1)[j] == y);
                } else {
                    assert(ids@.take(i + 1)[i as int] == y);
                }
            }
            if ids@.take(i + 1).contains(y) {
                let j = choose|j: int| 0 <= j <= i && #[trigger] ids@.take(i + 1)[j] == y;
                if j < i {
                    assert(ids@.take(i as int)[j] == y);
                    assert(old_res.contains(y));
                    let k = choose|k: int| 0 <= k < old_res.len() && old_res[k] == y;
                    if k < pos {
                        assert(res@[k] == y);
                    } else {
                        assert(res@[k + 1] == y);
                    }
                } else {
                    assert(res@[pos as int] == y);
                }
            }
        }
        assert forall|k: int| 0 <= k < res.len() implies (#[trigger] res@[k] as int) < nodes.len() by {
            if k < pos {
                assert(res@[k] == old_res[k]);
            } else if k > pos {
                assert(res@[k] == old_res[k - 1]);
            }
        }
        assert forall|a: int, b: int| 0 <= a < b < res@.len() implies res@[a] != res@[b] by {
            lemma_node_before_order(nv, res@[a], res@[b], res@[b]);
        }
        i = i + 1;
    }
    assert(ids@.take(i as int) =~= ids@);
    res
}

proof fn lemma_sorted_ids_transfer(n1: Seq<NodeView>, n2: Seq<NodeView>, cs: Seq<usize>)
    requires
        n1.len() == n2.len(),
        forall|i: int| 0 <= i < n1.len() ==> (#[trigger] n1[i]).name == n2[i].name && n1[i].kind == n2[i].kind,
        forall|k: int| 0 <= k < cs.len() ==> (#[trigger] cs[k] as int) < n1.len(),
        sorted_ids(n1, cs),
    ensures
        sorted_ids(n2, cs),
{
    assert forall|a: int, b: int| 0 <= a < b < cs.len() implies node_before(n2, #[trigger] cs[a], #[trigger] cs[b]) by {
        assert(node_before(n1, cs[a], cs[b]));
        assert(n1[cs[a] as int].name == n2[cs[a] as int].name);
        assert(n1[cs[b] as int].name == n2[cs[b] as int].name);
    }
}

proof fn lemma_ordered_wf(unsorted: Seq<NodeView>, sorted: Seq<NodeView>, host_count: nat)
    requires
        tree_wf(unsorted),
        hosts_in_range(unsorted, host_count),
        ordered_tree_of(unsorted, sorted),
    ensures
        tree_wf(sorted),
        hosts_in_range(sorted, host_count),
{
    assert forall|i: int| 0 <= i < sorted.len() implies (#[trigger] sorted[i]).id == i by {
        assert(sorted[i].id == unsorted[i].id);
    }
    assert forall|i: int| 0 < i < sorted.len() implies {
        &&& !((#[trigger] sorted[i]).kind is Root)
        &&& sorted[i].parent is Some
        &&& (sorted[i].parent->0 as int) < i
        &&& sorted[sorted[i].parent->0 as int].children.contains(i as usize)
    } by {
        assert(sorted[i].parent == unsorted[i].parent);
        assert(sorted[i].kind == unsorted[i].kind);
        let p = unsorted[i].parent->0 as int;
        assert(unsorted[p].children.contains(i as usize));
        assert(same_members(sorted[p].children, unsorted[p].children));
    }
    assert forall|i: int, j: int| 0 <= i < sorted.len() && 0 <= j < sorted[i].children.len() implies {
        &&& i < (#[trigger] sorted[i].children[j]) < sorted.len()
        &&& sorted[sorted[i].children[j] as int].parent == Some(i as usize)
    } by {
        let c = sorted[i].children[j];
        assert(sorted[i].children.contains(c));
        assert(same_members(sorted[i].children, unsorted[i].children));
        assert(unsorted[i].children.contains(c));
        let k = choose|k: int| 0 <= k < unsorted[i].children.len() && unsorted[i].children[k] == c;
        assert(i < unsorted[i].children[k] < unsorted.len());
        assert(sorted[c as int].parent == unsorted[c as int].parent);
    }
    assert(sorted[0].kind == unsorted[0].kind);
    assert(sorted[0].parent == unsorted[0].parent);
    assert forall|i: int| 0 <= i < sorted.len() && (#[trigger] sorted[i]).kind is Host implies (
    sorted[i].kind->0 as nat) < host_count by {
        assert(sorted[i].kind == unsorted[i].kind);
    }
}

/// Builds the tree of a configuration. Returns the nodes, the root's
/// index, the nodes that start expanded and the groups marked expanded.
pub fn build_tree(config: &SshConfig) -> (r: (Vec<Node>, usize, std::collections::HashSet<usize>, Vec<usize>))
    ensures
        ordered_tree_of(unsorted_tree(config@), node_views(r.0@)),
        r.1 == 0,
        r.2@ == add_groups(config@.groups).1,
        r.3@ == add_groups(config@.groups).2,
        tree_wf(node_views(r.0@)),
        hosts_in_range(node_views(r.0@), config.hosts.len() as nat),
{
    let ghost cv = config@;
    let root = Node {
        id: 0,
        name: owned("All Hosts"),
        description: None,
        parent: None,
        children: Vec::new(),
        kind: NodeKind::Root,
        search_fields: Vec::new(),
    };
    proof {
        reveal_strlit("All Hosts");
    }
    assert(root@.name =~= root_name());
    assert(root@.children =~= Seq::<usize>::empty());
    assert(root@.search_fields =~= Seq::<Seq<char>>::empty());
    let mut nodes: Vec<Node> = Vec::new();
    nodes.push(root);
    let mut expanded: std::collections::HashSet<usize> = std::collections::HashSet::new();
    let mut initial: Vec<usize> = Vec::new();
    assert(node_views(nodes@) =~= seq![root_node()]);
    assert(cv.groups.take(0) =~= Seq::<GroupView>::empty());
    let mut i: usize = 0;
    while i < config.groups.len()
        invariant
            i <= config.groups.len(),
            cv == config@,
            (node_views(nodes@), expanded@, initial@) == add_groups(cv.groups.take(i as int)),
        decreases config.groups.len() - i,
    {
        assert(cv.groups.take(i + 1).drop_last() =~= cv.groups.take(i as int));
        assert(cv.groups.take(i + 1).last() == config.groups@[i as int]@);
        let g = &config.groups[i];
        let id = ensure_group_path(&mut nodes, 0, &g.path, 0, &g.description);
        if g.expanded_by_default {
            initial.push(id);
            expand_with_ancestors(&nodes, id, &mut expanded);
        }
        i = i + 1;
    }
    assert(cv.groups.take(i as int) =~= cv.groups);
    let ghost grouped = node_views(nodes@);
    proof {
        lemma_add_groups_wf(cv.groups);
        assert forall|k: int| 0 <= k < grouped.len() implies (#[trigger] grouped[k]).kind !is Host by {
            if k > 0 {
                assert(grouped[k].kind is Group);
            }
        }
    }
    assert(cv.hosts.take(0) =~= Seq::<HostView>::empty());
    let mut h: usize = 0;
    while h < config.hosts.len()
        invariant
            h <= config.hosts.len(),
            cv == config@,
            node_views(nodes@) == add_hosts(grouped, cv.hosts.take(h as int)),
            tree_wf(grouped),
            forall|k: int| 0 <= k < grouped.len() ==> (#[trigger] grouped[k]).kind !is Host,
        decreases config.hosts.len() - h,
    {
        assert(cv.hosts.take(h + 1).drop_last() =~= cv.hosts.take(h as int));
        assert(cv.hosts.take(h + 1).last() == config.hosts@[h as int]@);
        let host = &config.hosts[h];
        let parent = if host.group_path.len() == 0 {
            0
        } else {
            ensure_group_path(&mut nodes, 0, &host.group_path, 0, &None)
        };
        if nodes.len() < usize::MAX {
            let id = nodes.len();
            let n = Node {
                id,
                name: host.alias.clone(),
                description: clone_opt_string(&host.description),
                parent: Some(parent),
                children: Vec::new(),
                kind: NodeKind::Host(h),
                search_fields: host_fields_exec(host),
            };
            assert(n@.children =~= Seq::<usize>::empty());
            if parent < nodes.len() {
                add_child_exec(&mut nodes, parent, n);
            } else {
                proof {
                    lemma_add_hosts_wf(grouped, cv.hosts.take(h as int));
                    if host.group_path.len() != 0 {
                        lemma_ensure_path_wf(
                            add_hosts(grouped, cv.hosts.take(h as int)),
                            0,
                            cv.hosts[h as int].group_path,
                            0,
                            None,
                        );
                    }
                }
                assert(false);
            }
        }
        h = h + 1;
    }
    assert(cv.hosts.take(h as int) =~= cv.hosts);
    let ghost unsorted = node_views(nodes@);
    assert(unsorted == unsorted_tree(cv));
    proof {
        lemma_add_hosts_wf(grouped, cv.hosts);
    }
    // Sort the children of every node.
    let mut lows: Vec<Vec<char>> = Vec::new();
    let mut names: Vec<Vec<char>> = Vec::new();
    let mut j: usize = 0;
    while j < nodes.len()
        invariant
            j <= nodes.len(),
            lows.len() == j,
            names.len() == j,
            forall|i: int| 0 <= i < j ==> (#[trigger] lows@[i])@ == lowercase(nodes@[i].name@),
            forall|i: int| 0 <= i < j ==> (#[trigger] names@[i])@ == nodes@[i].name@,
        decreases nodes.len() - j,
    {
        let lower = to_lowercase(nodes[j].name.as_str());
        lows.push(chars_of(lower.as_str()));
        names.push(chars_of(nodes[j].name.as_str()));
        j = j + 1;
    }
    let mut k: usize = 0;
    while k < nodes.len()
        invariant
            k <= nodes.len(),
            nodes.len() == unsorted.len(),
            tree_wf(unsorted),
            lows.len() == nodes.len(),
            names.len() == nodes.len(),
            forall|i: int| 0 <= i < nodes.len() ==> (#[trigger] lows@[i])@ == lowercase(nodes@[i].name@),
            forall|i: int| 0 <= i < nodes.len() ==> (#[trigger] names@[i])@ == nodes@[i].name@,
            forall|i: int|
                0 <= i < nodes.len() ==> #[trigger] node_views(nodes@)[i] == (NodeView {
                    children: node_views(nodes@)[i].children,
                    ..unsorted[i]
                }),
            forall|i: int| k <= i < nodes.len() ==> #[trigger] node_views(nodes@)[i] == unsorted[i],
            forall|i: int|
                0 <= i < k ==> {
                    &&& same_members((#[trigger] node_views(nodes@)[i]).children, unsorted[i].children)
                    &&& node_views(nodes@)[i].children.no_duplicates()
                    &&& sorted_ids(unsorted, node_views(nodes@)[i].children)
                },
        decreases nodes.len() - k,
    {
        assert(node_views(nodes@)[k as int] == unsorted[k as int]);
        assert forall|q: int| 0 <= q < nodes@[k as int].children.len() implies (
        #[trigger] nodes@[k as int].children@[q] as int) < nodes.len() by {
            assert(unsorted[k as int].children[q] == nodes@[k as int].children@[q]);
        }
        assert(nodes@[k as int].children@.no_duplicates()) by {
            assert(unsorted[k as int].children == nodes@[k as int].children@);
        }
        let ghost nv_before = node_views(nodes@);
        let sorted = sort_children(&nodes[k].children, &nodes, &lows, &names);
        proof {
            assert forall|i: int| 0 <= i < nv_before.len() implies (#[trigger] nv_before[i]).name
                == unsorted[i].name && nv_before[i].kind == unsorted[i].kind by {
                assert(nv_before[i] == NodeView { children: nv_before[i].children, ..unsorted[i] });
            }
            assert forall|q: int| 0 <= q < sorted@.len() implies (#[trigger] sorted@[q] as int)
                < nv_before.len() by {
                assert(sorted@.contains(sorted@[q]));
                assert(nodes@[k as int].children@.contains(sorted@[q]));
                let t = choose|t: int|
                    0 <= t < nodes@[k as int].children@.len() && nodes@[k as int].children@[t]
                        == sorted@[q];
                assert((nodes@[k as int].children@[t] as int) < nodes.len());
            }
            lemma_sorted_ids_transfer(nv_before, unsorted, sorted@);
        }
        let ghost before = nodes@;
        nodes[k].children = sorted;
        assert forall|i: int| 0 <= i < nodes.len() && i != k implies #[trigger] node_views(nodes@)[i]
            == node_views(before)[i] by {
            assert(nodes@[i] == before[i]);
        }
        assert(node_views(nodes@)[k as int] == NodeView { children: sorted@, ..unsorted[k as int] });
        k = k + 1;
    }
    let ghost final_nodes = node_views(nodes@);
    assert forall|i: int| 0 <= i < final_nodes.len() implies {
        &&& #[trigger] final_nodes[i] == (NodeView { children: final_nodes[i].children, ..unsorted[i] })
        &&& same_members(final_nodes[i].children, unsorted[i].children)
        &&& final_nodes[i].children.no_duplicates()
        &&& sorted_ids(final_nodes, final_nodes[i].children)
    } by {
        assert forall|q: int| 0 <= q < final_nodes.len() implies (#[trigger] unsorted[q]).name
            == final_nodes[q].name && unsorted[q].kind == final_nodes[q].kind by {
            assert(final_nodes[q] == NodeView { children: final_nodes[q].children, ..unsorted[q] });
        }
        let cs = final_nodes[i].children;
        assert forall|q: int| 0 <= q < cs.len() implies (#[trigger] cs[q] as int) < unsorted.len() by {
            assert(cs.contains(cs[q]));
            assert(unsorted[i].children.contains(cs[q]));
            let t = choose|t: int| 0 <= t < unsorted[i].children.len() && unsorted[i].children[t] == cs[q];
            assert(unsorted[i].children[t] < unsorted.len());
        }
        lemma_sorted_ids_transfer(unsorted, final_nodes, cs);
    }
    proof {
        lemma_ordered_wf(unsorted, final_nodes, cv.hosts.len());
    }
    (nodes, 0, expanded, initial)
}

} // verus!
