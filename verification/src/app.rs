//! The browser's state: the host tree, what is expanded and selected, the
//! search, the reachability of hosts and the embedded session, and how each
//! key, click and event changes it.
use vstd::prelude::*;

use crate::embedded_session::{
    EmbeddedFocus,
    EmbeddedPoll,
    EmbeddedSession,
    MouseDecision,
    MouseInput,
    MouseKind,
    WaitOutcome,
    clamp_size,
    mouse_outcome,
    polled,
    selection_text,
    tidy_text,
};
use crate::reachability::{
    CheckResult,
    CheckTarget,
    CheckTargetView,
    HostReachability,
    target_views,
};
use crate::console::{click_step, register_host_click};
use crate::search::{fuzzy_indices, fuzzy_match};
use crate::ssh_config::{HostEntry, HostView, SshConfig};
use crate::ssh::ssh_arguments;
use crate::text::{chars_of, string_views, decimal, owned, string_from, trim, trim_chars};
use crate::tree::{
    Node,
    NodeKind,
    NodeView,
    RowView,
    VisibleRow,
    add_groups,
    build_tree,
    hosts_in_range,
    node_views,
    ordered_tree_of,
    row_views,
    tree_wf,
    unsorted_tree,
};

verus! {

broadcast use vstd::std_specs::hash::group_hash_axioms;

#[derive(Debug, Clone, Copy, PartialEq, Eq, Structural)]
pub enum InputMode {
    Normal,
    Search,
}

/// Why the last connection to a host failed.
#[derive(Debug, Clone, PartialEq, Eq)]
pub struct ConnectionFailure {
    pub alias: String,
    pub message: String,
    pub exit_status: Option<i32>,
}

/// A rectangle of the terminal, in cells.
#[derive(Debug, Clone, Copy, PartialEq, Eq, Structural)]
pub struct Area {
    pub left: u16,
    pub top: u16,
    pub width: u16,
    pub height: u16,
}

pub open spec fn sat_add16(a: u16, b: u16) -> int {
    if a + b > u16::MAX {
        u16::MAX as int
    } else {
        a + b
    }
}

pub open spec fn sat_sub16(a: u16, b: u16) -> int {
    if a >= b {
        a - b
    } else {
        0
    }
}

/// Whether the cell lies in the area (its far edges saturate at the
/// largest coordinate).
pub open spec fn area_holds(a: Area, column: u16, row: u16) -> bool {
    &&& column >= a.left
    &&& column < sat_add16(a.left, a.width)
    &&& row >= a.top
    &&& row < sat_add16(a.top, a.height)
}

/// The area inside a one-cell border, at least one cell large.
pub open spec fn area_inside(a: Area) -> Area {
    Area {
        left: sat_add16(a.left, 1) as u16,
        top: sat_add16(a.top, 1) as u16,
        width: if sat_sub16(a.width, 2) < 1 {
            1
        } else {
            sat_sub16(a.width, 2) as u16
        },
        height: if sat_sub16(a.height, 2) < 1 {
            1
        } else {
            sat_sub16(a.height, 2) as u16
        },
    }
}

impl Area {
    pub open spec fn empty() -> Area {
        Area { left: 0, top: 0, width: 0, height: 0 }
    }

    pub fn contains(self, column: u16, row: u16) -> (r: bool)
        ensures
            r == area_holds(self, column, row),
    {
        column >= self.left && column < self.left.saturating_add(self.width) && row >= self.top
            && row < self.top.saturating_add(self.height)
    }

    pub fn inner(self) -> (r: Area)
        ensures
            r == area_inside(self),
    {
        let width = self.width.saturating_sub(2);
        let height = self.height.saturating_sub(2);
        Area {
            left: self.left.saturating_add(1),
            top: self.top.saturating_add(1),
            width: if width < 1 {
                1
            } else {
                width
            },
            height: if height < 1 {
                1
            } else {
                height
            },
        }
    }
}

/// Where the search field, the tree and the details pane were last drawn.
#[derive(Debug, Clone, Copy, PartialEq, Eq, Structural)]
pub struct InteractionLayout {
    pub search: Area,
    pub tree: Area,
    pub details: Area,
}

// ---------------------------------------------------------------------------
// Matching and the visible rows
// ---------------------------------------------------------------------------

/// Some search field of a node matches the query.
pub open spec fn field_matches(fields: Seq<Seq<char>>, query: Seq<char>) -> bool {
    exists|i: int| 0 <= i < fields.len() && #[trigger] fuzzy_match(fields[i], query) is Some
}

/// Whether a node matches the (trimmed) query, and which characters of its
/// name did. Every node matches an empty query.
pub open spec fn node_match(n: NodeView, query: Seq<char>) -> (bool, Seq<usize>) {
    if query.len() == 0 {
        (true, Seq::empty())
    } else {
        match fuzzy_match(n.name, query) {
            Some(ix) => (true, ix),
            None => (field_matches(n.search_fields, query), Seq::empty()),
        }
    }
}

/// The rows a node contributes, and whether it does. Without a query a node
/// is shown with the rows of its children when it is expanded. With one,
/// every node is searched, and a node is shown when it, an ancestor or a
/// descendant matches.
pub open spec fn rows_of(
    nodes: Seq<NodeView>,
    expanded: Set<usize>,
    query: Seq<char>,
    id: usize,
    depth: nat,
    ancestor_matches: bool,
) -> (bool, Seq<RowView>)
    decreases nodes.len() - id, 1int, 0int,
{
    if id >= nodes.len() {
        (false, Seq::empty())
    } else {
        let n = nodes[id as int];
        let (self_matches, ix) = node_match(n, query);
        let active = query.len() > 0;
        let (below, child_rows) = if active || expanded.contains(id) {
            rows_of_children(
                nodes,
                expanded,
                query,
                id,
                n.children,
                0,
                depth + 1,
                ancestor_matches || self_matches,
            )
        } else {
            (false, Seq::empty())
        };
        if !active || ancestor_matches || self_matches || below {
            (true, seq![RowView { node_id: id, depth, matched: ix }] + child_rows)
        } else {
            (false, Seq::empty())
        }
    }
}

/// The rows of the children `cs[k..]` of `parent`, in order.
pub open spec fn rows_of_children(
    nodes: Seq<NodeView>,
    expanded: Set<usize>,
    query: Seq<char>,
    parent: usize,
    cs: Seq<usize>,
    k: int,
    depth: nat,
    ancestor_matches: bool,
) -> (bool, Seq<RowView>)
    decreases nodes.len() - parent, 0int, cs.len() - k,
{
    if k < 0 || k >= cs.len() {
        (false, Seq::empty())
    } else {
        let c = cs[k];
        let here = if parent < c && c < nodes.len() {
            rows_of(nodes, expanded, query, c, depth, ancestor_matches)
        } else {
            (false, Seq::empty())
        };
        let rest = rows_of_children(
            nodes,
            expanded,
            query,
            parent,
            cs,
            k + 1,
            depth,
            ancestor_matches,
        );
        (here.0 || rest.0, here.1 + rest.1)
    }
}

/// The rows of the tree for a search text: the root's children and what
/// lies below them.
pub open spec fn visible_rows(nodes: Seq<NodeView>, expanded: Set<usize>, search: Seq<char>) -> Seq<
    RowView,
> {
    rows_of_children(nodes, expanded, trim(search), 0, nodes[0].children, 0, 0, false).1
}

/// The first row, from `k` on, that shows node `id`.
pub open spec fn first_row(rows: Seq<RowView>, id: usize, k: int) -> Option<int>
    decreases rows.len() - k,
{
    if k < 0 || k >= rows.len() {
        None
    } else if rows[k].node_id == id {
        Some(k)
    } else {
        first_row(rows, id, k + 1)
    }
}

pub proof fn lemma_first_row(rows: Seq<RowView>, id: usize, k: int)
    requires
        0 <= k,
    ensures
        match first_row(rows, id, k) {
            Some(i) => k <= i < rows.len() && rows[i].node_id == id && forall|j: int|
                k <= j < i ==> (#[trigger] rows[j]).node_id != id,
            None => forall|j: int| k <= j < rows.len() ==> (#[trigger] rows[j]).node_id != id,
        },
    decreases rows.len() - k,
{
    if k < rows.len() && rows[k].node_id != id {
        lemma_first_row(rows, id, k + 1);
    }
}

/// The selection after the rows changed: the row of the node selected
/// before if it is still shown, else the first row; kept within the rows.
pub open spec fn reselected(old_rows: Seq<RowView>, selected: usize, rows: Seq<RowView>) -> usize {
    let s = if selected < old_rows.len() {
        match first_row(rows, old_rows[selected as int].node_id, 0) {
            Some(i) => i as usize,
            None => 0,
        }
    } else {
        selected
    };
    if s >= rows.len() {
        if rows.len() >= 1 {
            (rows.len() - 1) as usize
        } else {
            0
        }
    } else {
        s
    }
}

/// The first shown row after scrolling so that the selection is in view.
pub open spec fn scrolled(offset: usize, selected: usize, height: u16) -> usize {
    let h: int = if height < 1 {
        1
    } else {
        height as int
    };
    if selected < offset {
        selected
    } else if selected >= offset + h {
        (selected - (h - 1)) as usize
    } else {
        offset
    }
}

/// The host count as the status line shows it.
pub open spec fn status_text(n: nat) -> Seq<char> {
    if n == 1 {
        seq!['1', ' ', 'h', 'o', 's', 't']
    } else {
        decimal(n) + seq![' ', 'h', 'o', 's', 't', 's']
    }
}

/// The node of the selected row, if a row is selected.
pub open spec fn selected_id(rows: Seq<RowView>, selected: usize) -> Option<usize> {
    if selected < rows.len() {
        Some(rows[selected as int].node_id)
    } else {
        None
    }
}

/// What is known of a host's reachability. With network checks off every
/// host counts as reachable.
pub open spec fn reachability_of(
    enabled: bool,
    known: Map<usize, HostReachability>,
    host_index: usize,
) -> HostReachability {
    if !enabled {
        HostReachability::Reachable
    } else if known.contains_key(host_index) {
        known[host_index]
    } else {
        HostReachability::Unchecked
    }
}

/// The check of a host: its host name (its alias when it has none) and its
/// port (22 when it has none).
pub open spec fn check_target(hosts: Seq<HostView>, h: usize) -> CheckTargetView {
    CheckTargetView {
        host_index: h,
        host: match hosts[h as int].resolved.host_name {
            Some(n) => n,
            None => hosts[h as int].alias,
        },
        port: match hosts[h as int].resolved.port {
            Some(p) => p,
            None => 22,
        },
    }
}

/// Asks for a check of each host in turn, skipping those being checked:
/// the known reachability and the checks asked for afterwards.
pub open spec fn ask_checks(
    hosts: Seq<HostView>,
    known: Map<usize, HostReachability>,
    pending: Seq<CheckTargetView>,
    hs: Seq<usize>,
) -> (Map<usize, HostReachability>, Seq<CheckTargetView>)
    decreases hs.len(),
{
    if hs.len() == 0 {
        (known, pending)
    } else {
        let (k, p) = ask_checks(hosts, known, pending, hs.drop_last());
        let h = hs.last();
        if k.contains_key(h) && k[h] == HostReachability::Checking {
            (k, p)
        } else {
            (k.insert(h, HostReachability::Checking), p.push(check_target(hosts, h)))
        }
    }
}

/// The hosts below a node, in tree order.
pub open spec fn hosts_below(nodes: Seq<NodeView>, id: usize) -> Seq<usize>
    decreases nodes.len() - id, 1int, 0int,
{
    if id >= nodes.len() {
        Seq::empty()
    } else {
        hosts_in_children(nodes, id, nodes[id as int].children, 0)
    }
}

/// The hosts of the children `cs[k..]` of `parent` and below them.
pub open spec fn hosts_in_children(nodes: Seq<NodeView>, parent: usize, cs: Seq<usize>, k: int) -> Seq<
    usize,
>
    decreases nodes.len() - parent, 0int, cs.len() - k,
{
    if k < 0 || k >= cs.len() {
        Seq::empty()
    } else {
        let c = cs[k];
        let here = if parent < c && c < nodes.len() {
            match nodes[c as int].kind {
                NodeKind::Host(h) => seq![h],
                _ => hosts_below(nodes, c),
            }
        } else {
            Seq::empty()
        };
        here + hosts_in_children(nodes, parent, cs, k + 1)
    }
}

/// The hosts among the nodes `cs[k..]` themselves.
pub open spec fn direct_hosts(nodes: Seq<NodeView>, cs: Seq<usize>, k: int) -> Seq<usize>
    decreases cs.len() - k,
{
    if k < 0 || k >= cs.len() {
        Seq::empty()
    } else {
        let rest = direct_hosts(nodes, cs, k + 1);
        if (cs[k] as int) < nodes.len() && nodes[cs[k] as int].kind is Host {
            seq![nodes[cs[k] as int].kind->0] + rest
        } else {
            rest
        }
    }
}

/// Checks of the hosts below each of the groups `gs`, in turn.
pub open spec fn checks_below_groups(
    hosts: Seq<HostView>,
    nodes: Seq<NodeView>,
    known: Map<usize, HostReachability>,
    pending: Seq<CheckTargetView>,
    gs: Seq<usize>,
) -> (Map<usize, HostReachability>, Seq<CheckTargetView>)
    decreases gs.len(),
{
    if gs.len() == 0 {
        (known, pending)
    } else {
        let (k, p) = checks_below_groups(hosts, nodes, known, pending, gs.drop_last());
        ask_checks(hosts, k, p, hosts_below(nodes, gs.last()))
    }
}

/// The checks asked for at start: the hosts right below the root, then
/// those below each group that starts expanded.
pub open spec fn initial_checks(
    hosts: Seq<HostView>,
    nodes: Seq<NodeView>,
    initially_expanded: Seq<usize>,
    enabled: bool,
) -> (Map<usize, HostReachability>, Seq<CheckTargetView>) {
    if !enabled {
        (Map::empty(), Seq::empty())
    } else {
        let (k, p) = ask_checks(
            hosts,
            Map::empty(),
            Seq::empty(),
            direct_hosts(nodes, nodes[0].children, 0),
        );
        checks_below_groups(hosts, nodes, k, p, initially_expanded)
    }
}

pub open spec fn empty_layout() -> InteractionLayout {
    InteractionLayout { search: Area::empty(), tree: Area::empty(), details: Area::empty() }
}

fn status_string(count: usize) -> (r: String)
    ensures
        r@ == status_text(count as nat),
{
    if count == 1 {
        let r = owned("1 host");
        proof {
            reveal_strlit("1 host");
        }
        assert(r@ =~= seq!['1', ' ', 'h', 'o', 's', 't']);
        r
    } else {
        let mut text = crate::text::decimal_chars(count as u64);
        let suffix = chars_of(" hosts");
        proof {
            reveal_strlit(" hosts");
        }
        crate::text::append(&mut text, &suffix);
        assert(text@ =~= status_text(count as nat));
        string_from(&text)
    }
}

fn match_node(node: &Node, query: &str) -> (r: (bool, Vec<usize>))
    ensures
        r.0 == node_match(node@, query@).0,
        r.1@ == node_match(node@, query@).1,
{
    if query.is_empty() {
        return (true, Vec::new());
    }
    match fuzzy_indices(node.name.as_str(), query) {
        Some(ix) => (true, ix),
        None => {
            let ghost fields = node@.search_fields;
            let mut i: usize = 0;
            while i < node.search_fields.len()
                invariant
                    i <= node.search_fields.len(),
                    fields == node@.search_fields,
                    query@.len() > 0,
                    fuzzy_match(node@.name, query@) is None,
                    forall|j: int| 0 <= j < i ==> fuzzy_match(#[trigger] fields[j], query@) is None,
                decreases node.search_fields.len() - i,
            {
                assert(fields[i as int] == node.search_fields@[i as int]@);
                if fuzzy_indices(node.search_fields[i].as_str(), query).is_some() {
                    assert(fuzzy_match(fields[i as int], query@) is Some);
                    let none: Vec<usize> = Vec::new();
                    assert(none@ =~= node_match(node@, query@).1);
                    return (true, none);
                }
                i = i + 1;
            }
            assert(!field_matches(fields, query@));
            let none: Vec<usize> = Vec::new();
            assert(none@ =~= node_match(node@, query@).1);
            (false, none)
        },
    }
}

fn position_of(rows: &Vec<VisibleRow>, id: usize) -> (r: Option<usize>)
    ensures
        match r {
            Some(i) => first_row(row_views(rows@), id, 0) == Some(i as int),
            None => first_row(row_views(rows@), id, 0) is None,
        },
{
    let ghost rv = row_views(rows@);
    let mut k: usize = 0;
    while k < rows.len()
        invariant
            k <= rows.len(),
            rv == row_views(rows@),
            first_row(rv, id, 0) == first_row(rv, id, k as int),
        decreases rows.len() - k,
    {
        assert(rv[k as int] == rows@[k as int]@);
        if rows[k].node_id == id {
            return Some(k);
        }
        k = k + 1;
    }
    None
}

/// Opens the groups from `id` up to the root (left out): the expanded
/// groups after it, and the topmost group that was closed before, if any.
pub open spec fn reveal_walk(nodes: Seq<NodeView>, expanded: Set<usize>, id: usize) -> (
    Set<usize>,
    Option<usize>,
)
    decreases id,
{
    if id == 0 || id >= nodes.len() {
        (expanded, None)
    } else {
        let opened = expanded.insert(id);
        let (e, higher) = match nodes[id as int].parent {
            Some(p) => if p < id {
                reveal_walk(nodes, opened, p)
            } else {
                (opened, None)
            },
            None => (opened, None),
        };
        (e, if higher is Some {
            higher
        } else if !expanded.contains(id) {
            Some(id)
        } else {
            None
        })
    }
}

pub open spec fn walk_from(nodes: Seq<NodeView>, expanded: Set<usize>, start: Option<usize>) -> (
    Set<usize>,
    Option<usize>,
) {
    match start {
        Some(id) => reveal_walk(nodes, expanded, id),
        None => (expanded, None),
    }
}

/// The group whose ancestors are opened to reveal a node: a group itself,
/// a host's parent, nothing for the root.
pub open spec fn reveal_start(nodes: Seq<NodeView>, n: usize) -> Option<usize> {
    match nodes[n as int].kind {
        NodeKind::Root => None,
        NodeKind::Group => Some(n),
        NodeKind::Host(_) => nodes[n as int].parent,
    }
}

/// The known reachability after the results of checks came in, in order.
pub open spec fn apply_results(known: Map<usize, HostReachability>, results: Seq<CheckResult>) -> Map<
    usize,
    HostReachability,
>
    decreases results.len(),
{
    if results.len() == 0 {
        known
    } else {
        apply_results(known, results.drop_last()).insert(
            results.last().host_index,
            results.last().reachability,
        )
    }
}

/// What the caller must start for an embedded session: the host's alias,
/// the arguments of `ssh` and the size of the terminal.
#[derive(Debug, Clone, PartialEq, Eq)]
pub struct EmbeddedLaunch {
    pub alias: String,
    pub arguments: Vec<String>,
    pub rows: u16,
    pub cols: u16,
}

/// How the selected host is opened.
#[derive(Debug, Clone, PartialEq, Eq)]
pub enum Activation {
    Nothing,
    /// Start this embedded session.
    Embedded(EmbeddedLaunch),
    /// Run `ssh` with these arguments in the terminal.
    External { alias: String, arguments: Vec<String> },
    /// The open session got the keyboard.
    FocusSession,
}

/// What the caller must do with a mouse event over the details pane.
#[derive(Debug, Clone, Copy, PartialEq, Eq, Structural)]
pub enum EmbeddedMouseStep {
    Ignored,
    Handled,
    /// Scroll the terminal's view back by this many rows.
    ScrollUp(usize),
    /// Scroll the terminal's view forward by this many rows.
    ScrollDown(usize),
    /// The selection is finished: copy its text.
    CopySelection,
    /// Hand the event, in terminal cells, to the program in the terminal.
    Forward(MouseInput),
}

// ---------------------------------------------------------------------------
// The application state
// ---------------------------------------------------------------------------

/// The state of the browser.
#[derive(Debug)]
pub struct App {
    pub config: SshConfig,
    pub nodes: Vec<Node>,
    pub root_id: usize,
    pub expanded: std::collections::HashSet<usize>,
    pub selected: usize,
    pub visible: Vec<VisibleRow>,
    pub search: String,
    pub input_mode: InputMode,
    pub visible_offset: usize,
    pub status: String,
    pub reachability: std::collections::HashMap<usize, HostReachability>,
    pub connection_failure: Option<ConnectionFailure>,
    pub embedded_session: Option<EmbeddedSession>,
    pub layout: InteractionLayout,
    pub embedded_ssh_enabled: bool,
    pub network_checks_enabled: bool,
    /// Checks asked for and not yet handed out to be run.
    pub pending_checks: Vec<CheckTarget>,
    /// Checks handed out whose results have not come back.
    pub checks_in_flight: usize,
}

impl App {
    /// The tree is well formed, its root is node 0, its hosts are hosts of
    /// the configuration and every shown row is a node.
    pub open spec fn wf(&self) -> bool {
        &&& tree_wf(node_views(self.nodes@))
        &&& self.root_id == 0
        &&& hosts_in_range(node_views(self.nodes@), self.config.hosts.len() as nat)
        &&& forall|i: int|
            0 <= i < self.visible.len() ==> (#[trigger] self.visible@[i].node_id as int)
                < self.nodes.len()
    }

    pub open spec fn nv(&self) -> Seq<NodeView> {
        node_views(self.nodes@)
    }

    /// The rows are those of the tree for the expanded groups and the
    /// search.
    pub open spec fn rows_current(self) -> bool {
        row_views(self.visible@) == visible_rows(self.nv(), self.expanded@, self.search@)
    }

    /// `self` is `pre` with its rows recomputed: the rows of the tree for
    /// the expanded groups and the search, the selected node kept selected
    /// where it is still shown, and the selection scrolled into view.
    pub open spec fn rebuilt_from(self, pre: App) -> bool {
        &&& row_views(self.visible@) == visible_rows(pre.nv(), pre.expanded@, pre.search@)
        &&& self.selected == reselected(
            row_views(pre.visible@),
            pre.selected,
            row_views(self.visible@),
        )
        &&& self == (App {
            visible: self.visible,
            selected: self.selected,
            visible_offset: scrolled(pre.visible_offset, self.selected, pre.layout.tree.height),
            ..pre
        })
    }

    /// The known reachability and the checks asked for, after asking for
    /// checks of the hosts below a node.
    pub open spec fn checks_below(self, node_id: usize) -> (
        Map<usize, HostReachability>,
        Seq<CheckTargetView>,
    ) {
        if self.network_checks_enabled {
            ask_checks(
                self.config@.hosts,
                self.reachability@,
                target_views(self.pending_checks@),
                hosts_below(self.nv(), node_id),
            )
        } else {
            (self.reachability@, target_views(self.pending_checks@))
        }
    }

    /// `self` is `pre` with the checks below a node asked for.
    pub open spec fn checked_below(self, pre: App, node_id: usize) -> bool {
        &&& (self.reachability@, target_views(self.pending_checks@)) == pre.checks_below(node_id)
        &&& self == (App {
            reachability: self.reachability,
            pending_checks: self.pending_checks,
            ..pre
        })
    }

    /// The selected node, when a row is selected.
    pub open spec fn selected_node_spec(self) -> Option<usize> {
        selected_id(row_views(self.visible@), self.selected)
    }

    /// `self` is `pre` with node `node_id` selected, if it is shown, and
    /// scrolled into view.
    pub open spec fn selected_node_from(self, pre: App, node_id: usize) -> bool {
        match first_row(row_views(pre.visible@), node_id, 0) {
            Some(i) => self == (App {
                selected: i as usize,
                visible_offset: scrolled(pre.visible_offset, i as usize, pre.layout.tree.height),
                ..pre
            }),
            None => self == pre,
        }
    }

    /// `self` is `pre` with the selected group opened or closed: opening
    /// asks for checks of the hosts below it; the rows are rebuilt. Hosts
    /// and an empty tree are left as they are.
    pub open spec fn toggled_from(self, pre: App) -> bool {
        match pre.selected_node_spec() {
            Some(n) => if (n as int) < pre.nodes.len() && pre.nv()[n as int].kind !is Host {
                if !pre.expanded@.contains(n) {
                    &&& self.expanded@ == pre.expanded@.insert(n)
                    &&& (self.reachability@, target_views(self.pending_checks@)) == pre.checks_below(n)
                    &&& self.rebuilt_from(
                        App {
                            expanded: self.expanded,
                            reachability: self.reachability,
                            pending_checks: self.pending_checks,
                            ..pre
                        },
                    )
                } else {
                    &&& self.expanded@ == pre.expanded@.remove(n)
                    &&& self.rebuilt_from(App { expanded: self.expanded, ..pre })
                }
            } else {
                self == pre
            },
            None => self == pre,
        }
    }

    /// The row a click at a cell selects, if it falls on one.
    pub open spec fn row_at(self, column: u16, row: u16) -> Option<usize> {
        if !area_holds(self.layout.tree, column, row) {
            None
        } else {
            let i = self.visible_offset + (row - self.layout.tree.top);
            if i >= self.visible.len() {
                None
            } else {
                Some(i as usize)
            }
        }
    }

    /// The node of the selected row.
    pub fn selected_node_id(&self) -> (r: Option<usize>)
        ensures
            r == selected_id(row_views(self.visible@), self.selected),
    {
        if self.selected < self.visible.len() {
            Some(self.visible[self.selected].node_id)
        } else {
            None
        }
    }

    fn keep_selection_visible(&mut self)
        ensures
            *final(self) == (App {
                visible_offset: scrolled(
                    old(self).visible_offset,
                    old(self).selected,
                    old(self).layout.tree.height,
                ),
                ..*old(self)
            }),
    {
        let height: usize = if self.layout.tree.height < 1 {
            1
        } else {
            self.layout.tree.height as usize
        };
        if self.selected < self.visible_offset {
            self.visible_offset = self.selected;
        } else if self.selected - self.visible_offset >= height {
            self.visible_offset = self.selected - (height - 1);
        }
    }

    /// Recomputes the shown rows from the tree, the expanded groups and the
    /// search, keeps the selected node selected where it is still shown and
    /// scrolls it into view.
    pub fn rebuild_visible(&mut self)
        requires
            old(self).wf(),
        ensures
            final(self).wf(),
            final(self).rebuilt_from(*old(self)),
    {
        let previous = self.selected_node_id();
        let q = trim_chars(&chars_of(self.search.as_str()));
        let query = string_from(&q);
        let ghost nv = self.nv();
        let ghost e = self.expanded@;
        let ghost qv = query@;
        assert(qv == trim(self.search@));
        let ghost cs = nv[0].children;
        assert(cs == self.nodes@[0].children@);
        let mut rows: Vec<VisibleRow> = Vec::new();
        let mut k: usize = 0;
        while k < self.nodes[0].children.len()
            invariant
                k <= self.nodes@[0].children.len(),
                self.wf(),
                nv == self.nv(),
                e == self.expanded@,
                qv == query@,
                cs == self.nodes@[0].children@,
                row_views(rows@) + rows_of_children(nv, e, qv, 0, cs, k as int, 0, false).1
                    == rows_of_children(nv, e, qv, 0, cs, 0, 0, false).1,
                forall|i: int|
                    0 <= i < rows.len() ==> (#[trigger] rows@[i].node_id as int) < self.nodes.len(),
            decreases self.nodes@[0].children.len() - k,
        {
            let child = self.nodes[0].children[k];
            assert(nv[0].children[k as int] == child);
            assert(0 < child && child < nv.len());
            let ghost before = row_views(rows@);
            let ghost before_rows = rows@;
            let ghost here = rows_of(nv, e, qv, child, 0, false);
            let ghost rest = rows_of_children(nv, e, qv, 0, cs, k + 1, 0, false);
            assert(rows_of_children(nv, e, qv, 0, cs, k as int, 0, false) == (
            here.0 || rest.0, here.1 + rest.1));
            self.collect_visible(child, 0, false, query.as_str(), &mut rows);
            assert(before + (here.1 + rest.1) =~= (before + here.1) + rest.1);
            assert forall|i: int| 0 <= i < rows.len() implies (#[trigger] rows@[i].node_id as int)
                < self.nodes.len() by {
                if i < before_rows.len() {
                    assert(row_views(rows@)[i] == before[i]);
                    assert(before[i] == before_rows[i]@);
                }
            }
            k = k + 1;
        }
        assert(rows_of_children(nv, e, qv, 0, cs, k as int, 0, false).1 =~= Seq::<RowView>::empty());
        assert(row_views(rows@) =~= visible_rows(nv, e, self.search@));
        let ghost old_rows = row_views(self.visible@);
        let mut sel = self.selected;
        match previous {
            Some(p) => {
                sel = match position_of(&rows, p) {
                    Some(i) => i,
                    None => 0,
                };
            },
            None => {},
        }
        if sel >= rows.len() {
            sel = if rows.len() >= 1 {
                rows.len() - 1
            } else {
                0
            };
        }
        self.visible = rows;
        self.selected = sel;
        assert(self.selected == reselected(old_rows, old(self).selected, row_views(self.visible@)));
        self.keep_selection_visible();
    }

    /// What is known of a host's reachability.
    pub fn host_reachability(&self, host_index: usize) -> (r: HostReachability)
        ensures
            r == reachability_of(self.network_checks_enabled, self.reachability@, host_index),
    {
        if !self.network_checks_enabled {
            return HostReachability::Reachable;
        }
        match self.reachability.get(&host_index) {
            Some(r) => *r,
            None => HostReachability::Unchecked,
        }
    }

    /// Asks for a check of each of the hosts that is not being checked yet
    /// and marks it as being checked; nothing when checks are off.
    fn check_host_indices(&mut self, host_indices: Vec<usize>)
        requires
            forall|i: int|
                0 <= i < host_indices.len() ==> (#[trigger] host_indices@[i] as int)
                    < old(self).config.hosts.len(),
        ensures
            !old(self).network_checks_enabled ==> *final(self) == *old(self),
            old(self).network_checks_enabled ==> (final(self).reachability@, target_views(
                final(self).pending_checks@,
            )) == ask_checks(
                old(self).config@.hosts,
                old(self).reachability@,
                target_views(old(self).pending_checks@),
                host_indices@,
            ),
            *final(self) == (App {
                reachability: final(self).reachability,
                pending_checks: final(self).pending_checks,
                ..*old(self)
            }),
    {
        if !self.network_checks_enabled {
            return;
        }
        let ghost hosts = self.config@.hosts;
        let ghost start = *self;
        let mut i: usize = 0;
        while i < host_indices.len()
            invariant
                i <= host_indices.len(),
                self.network_checks_enabled,
                hosts == self.config@.hosts,
                forall|j: int|
                    0 <= j < host_indices.len() ==> (#[trigger] host_indices@[j] as int)
                        < self.config.hosts.len(),
                (self.reachability@, target_views(self.pending_checks@)) == ask_checks(
                    hosts,
                    start.reachability@,
                    target_views(start.pending_checks@),
                    host_indices@.take(i as int),
                ),
                *self == (App {
                    reachability: self.reachability,
                    pending_checks: self.pending_checks,
                    ..start
                }),
            decreases host_indices.len() - i,
        {
            let h = host_indices[i];
            assert(host_indices@.take(i + 1).drop_last() =~= host_indices@.take(i as int));
            assert(host_indices@.take(i + 1).last() == h);
            if self.host_reachability(h) != HostReachability::Checking {
                self.reachability.insert(h, HostReachability::Checking);
                let host = &self.config.hosts[h];
                let name = match &host.resolved.host_name {
                    Some(n) => n.clone(),
                    None => host.alias.clone(),
                };
                let port = match host.resolved.port {
                    Some(p) => p,
                    None => 22,
                };
                let target = CheckTarget { host_index: h, host: name, port };
                assert(hosts[h as int] == host@);
                assert(target@ == check_target(hosts, h));
                let ghost before = self.pending_checks@;
                self.pending_checks.push(target);
                assert(target_views(self.pending_checks@) =~= target_views(before).push(target@));
            }
            i = i + 1;
        }
        assert(host_indices@.take(i as int) =~= host_indices@);
    }

    fn collect_host_indices(&self, node_id: usize, host_indices: &mut Vec<usize>)
        requires
            tree_wf(self.nv()),
            hosts_in_range(self.nv(), self.config.hosts.len() as nat),
            node_id < self.nodes.len(),
        ensures
            final(host_indices)@ == old(host_indices)@ + hosts_below(self.nv(), node_id),
            forall|i: int|
                old(host_indices).len() <= i < final(host_indices).len() ==> (
                #[trigger] final(host_indices)@[i] as int) < self.config.hosts.len(),
        decreases self.nodes.len() - node_id,
    {
        let ghost nv = self.nv();
        let ghost start = host_indices@;
        let node = &self.nodes[node_id];
        assert(nv[node_id as int] == node@);
        let ghost cs = nv[node_id as int].children;
        let mut k: usize = 0;
        while k < node.children.len()
            invariant
                k <= node.children.len(),
                nv == self.nv(),
                tree_wf(nv),
                hosts_in_range(nv, self.config.hosts.len() as nat),
                node_id < self.nodes.len(),
                cs == node.children@,
                cs == nv[node_id as int].children,
                host_indices@ + hosts_in_children(nv, node_id, cs, k as int) == start
                    + hosts_in_children(nv, node_id, cs, 0),
                start.len() <= host_indices.len(),
                forall|i: int|
                    start.len() <= i < host_indices.len() ==> (#[trigger] host_indices@[i] as int)
                        < self.config.hosts.len(),
            decreases node.children.len() - k,
        {
            let child = node.children[k];
            assert(nv[node_id as int].children[k as int] == child);
            assert(node_id < child && child < nv.len());
            let ghost before = host_indices@;
            let ghost rest = hosts_in_children(nv, node_id, cs, k + 1);
            assert(nv[child as int] == self.nodes@[child as int]@);
            match self.nodes[child].kind {
                NodeKind::Host(h) => {
                    assert(nv[child as int].kind is Host);
                    host_indices.push(h);
                    assert(before + (seq![h] + rest) =~= before.push(h) + rest);
                },
                _ => {
                    self.collect_host_indices(child, host_indices);
                    assert(before + (hosts_below(nv, child) + rest) =~= (before + hosts_below(
                        nv,
                        child,
                    )) + rest);
                },
            }
            k = k + 1;
        }
        assert(hosts_in_children(nv, node_id, cs, k as int) =~= Seq::<usize>::empty());
        assert(host_indices@ =~= start + hosts_below(nv, node_id));
    }

    fn check_hosts_below(&mut self, node_id: usize)
        requires
            old(self).wf(),
        ensures
            final(self).wf(),
            final(self).checked_below(*old(self), node_id),
    {
        if node_id >= self.nodes.len() {
            assert(hosts_below(self.nv(), node_id) =~= Seq::<usize>::empty());
            return;
        }
        let mut host_indices: Vec<usize> = Vec::new();
        self.collect_host_indices(node_id, &mut host_indices);
        assert(host_indices@ =~= hosts_below(self.nv(), node_id));
        self.check_host_indices(host_indices);
    }

    /// What holds of a browser as it starts: the tree of the
    /// configuration with its children ordered, the groups marked expanded
    /// open with their ancestors, the rows shown without a search, the
    /// first row selected, the host count as status, and checks asked for
    /// of the hosts right below the root and below each group that starts
    /// expanded.
    pub open spec fn starts_as(
        self,
        config: SshConfig,
        network_checks_enabled: bool,
        embedded_ssh_enabled: bool,
    ) -> bool {
        &&& self.wf()
        &&& self.config == config
        &&& ordered_tree_of(unsorted_tree(config@), self.nv())
        &&& self.expanded@ == add_groups(config@.groups).1
        &&& row_views(self.visible@) == visible_rows(self.nv(), self.expanded@, Seq::empty())
        &&& self.selected == 0
        &&& self.visible_offset == 0
        &&& self.search@ == Seq::<char>::empty()
        &&& self.input_mode == InputMode::Normal
        &&& self.status@ == status_text(config.hosts.len() as nat)
        &&& (self.reachability@, target_views(self.pending_checks@)) == initial_checks(
            config@.hosts,
            self.nv(),
            add_groups(config@.groups).2,
            network_checks_enabled,
        )
        &&& self.connection_failure is None
        &&& self.embedded_session is None
        &&& self.layout == empty_layout()
        &&& self.embedded_ssh_enabled == embedded_ssh_enabled
        &&& self.network_checks_enabled == network_checks_enabled
        &&& self.checks_in_flight == 0
    }

    /// The browser for a configuration, with network checks.
    pub fn new(config: SshConfig) -> (r: App)
        ensures
            r.starts_as(config, true, false),
    {
        Self::with_features(config, true, false)
    }

    /// The browser for a configuration, with network checks on or off.
    pub fn with_network_checks(config: SshConfig, network_checks_enabled: bool) -> (r: App)
        ensures
            r.starts_as(config, network_checks_enabled, false),
    {
        Self::with_features(config, network_checks_enabled, false)
    }

    /// The browser for a configuration, with network checks and embedded
    /// sessions on or off.
    pub fn with_features(
        config: SshConfig,
        network_checks_enabled: bool,
        embedded_ssh_enabled: bool,
    ) -> (r: App)
        ensures
            r.starts_as(config, network_checks_enabled, embedded_ssh_enabled),
    {
        let ghost cfg = config;
        let (nodes, root_id, expanded, initially_expanded) = build_tree(&config);
        let count = config.hosts.len();
        let none = Area { left: 0, top: 0, width: 0, height: 0 };
        let mut app = App {
            config,
            nodes,
            root_id,
            expanded,
            selected: 0,
            visible: Vec::new(),
            search: String::new(),
            input_mode: InputMode::Normal,
            visible_offset: 0,
            status: String::new(),
            reachability: std::collections::HashMap::new(),
            connection_failure: None,
            embedded_session: None,
            layout: InteractionLayout { search: none, tree: none, details: none },
            embedded_ssh_enabled,
            network_checks_enabled,
            pending_checks: Vec::new(),
            checks_in_flight: 0,
        };
        assert(app.layout == empty_layout());
        app.rebuild_visible();
        app.status = status_string(count);
        let ghost nv = app.nv();
        let ghost hosts = cfg@.hosts;
        let ghost cs = nv[0].children;
        assert(app.reachability@ =~= Map::<usize, HostReachability>::empty());
        assert(app.pending_checks@ =~= Seq::<CheckTarget>::empty());
        let ghost pre = app;
        let mut ungrouped: Vec<usize> = Vec::new();
        let mut k: usize = 0;
        while k < app.nodes[0].children.len()
            invariant
                k <= app.nodes@[0].children.len(),
                app == pre,
                nv == app.nv(),
                app.wf(),
                cs == app.nodes@[0].children@,
                ungrouped@ + direct_hosts(nv, cs, k as int) == direct_hosts(nv, cs, 0),
                forall|i: int|
                    0 <= i < ungrouped.len() ==> (#[trigger] ungrouped@[i] as int)
                        < app.config.hosts.len(),
            decreases app.nodes@[0].children.len() - k,
        {
            let c = app.nodes[0].children[k];
            assert(nv[0].children[k as int] == c);
            assert(0 < c && c < nv.len());
            assert(nv[c as int] == app.nodes@[c as int]@);
            let ghost before = ungrouped@;
            match app.nodes[c].kind {
                NodeKind::Host(h) => {
                    assert(nv[c as int].kind is Host);
                    ungrouped.push(h);
                    assert(before + (seq![h] + direct_hosts(nv, cs, k + 1)) =~= ungrouped@
                        + direct_hosts(nv, cs, k + 1));
                },
                _ => {},
            }
            k = k + 1;
        }
        assert(direct_hosts(nv, cs, k as int) =~= Seq::<usize>::empty());
        assert(ungrouped@ =~= direct_hosts(nv, cs, 0));
        assert(target_views(app.pending_checks@) =~= Seq::<CheckTargetView>::empty());
        assert(hosts == app.config@.hosts);
        app.check_host_indices(ungrouped);
        let ghost first = if network_checks_enabled {
            ask_checks(hosts, Map::empty(), Seq::empty(), direct_hosts(nv, cs, 0))
        } else {
            (Map::<usize, HostReachability>::empty(), Seq::<CheckTargetView>::empty())
        };
        assert(app.reachability@ =~= first.0);
        assert(target_views(app.pending_checks@) =~= first.1);
        let ghost base = app;
        let ghost groups = initially_expanded@;
        let mut g: usize = 0;
        while g < initially_expanded.len()
            invariant
                g <= initially_expanded.len(),
                groups == initially_expanded@,
                app.wf(),
                nv == app.nv(),
                hosts == app.config@.hosts,
                app == (App {
                    reachability: app.reachability,
                    pending_checks: app.pending_checks,
                    ..base
                }),
                (app.reachability@, target_views(app.pending_checks@)) == if network_checks_enabled {
                    checks_below_groups(hosts, nv, first.0, first.1, groups.take(g as int))
                } else {
                    first
                },
                !network_checks_enabled ==> first == (
                Map::<usize, HostReachability>::empty(),
                Seq::<CheckTargetView>::empty(),
                ),
                app.network_checks_enabled == network_checks_enabled,
            decreases initially_expanded.len() - g,
        {
            let id = initially_expanded[g];
            assert(groups.take(g + 1).drop_last() =~= groups.take(g as int));
            assert(groups.take(g + 1).last() == id);
            app.check_hosts_below(id);
            g = g + 1;
        }
        assert(groups.take(g as int) =~= groups);
        app
    }

    /// Starts typing a search.
    pub fn start_search(&mut self)
        ensures
            *final(self) == (App { input_mode: InputMode::Search, ..*old(self) }),
    {
        self.input_mode = InputMode::Search;
    }

    /// Drops the search and shows the tree again.
    pub fn clear_search(&mut self)
        requires
            old(self).wf(),
        ensures
            final(self).wf(),
            final(self).search@ == Seq::<char>::empty(),
            final(self).rebuilt_from(
                App { search: final(self).search, input_mode: InputMode::Normal, ..*old(self) },
            ),
    {
        self.search = String::new();
        self.input_mode = InputMode::Normal;
        self.rebuild_visible();
    }

    /// Adds a character to the search.
    pub fn push_search(&mut self, character: char)
        requires
            old(self).wf(),
        ensures
            final(self).wf(),
            final(self).search@ == old(self).search@.push(character),
            final(self).rebuilt_from(App { search: final(self).search, ..*old(self) }),
    {
        let mut text = chars_of(self.search.as_str());
        text.push(character);
        self.search = string_from(&text);
        self.rebuild_visible();
    }

    /// Removes the last character of the search.
    pub fn pop_search(&mut self)
        requires
            old(self).wf(),
        ensures
            final(self).wf(),
            final(self).search@ == if old(self).search@.len() > 0 {
                old(self).search@.drop_last()
            } else {
                old(self).search@
            },
            final(self).rebuilt_from(App { search: final(self).search, ..*old(self) }),
    {
        let mut text = chars_of(self.search.as_str());
        if text.len() > 0 {
            text.pop();
        }
        self.search = string_from(&text);
        self.rebuild_visible();
    }

    /// Moves the selection one row down, staying on the last row.
    pub fn select_next(&mut self)
        ensures
            old(self).visible.len() == 0 ==> *final(self) == (App { selected: 0, ..*old(self) }),
            old(self).visible.len() > 0 ==> {
                let s = if old(self).selected + 1 < old(self).visible.len() {
                    (old(self).selected + 1) as usize
                } else {
                    (old(self).visible.len() - 1) as usize
                };
                *final(self) == (App {
                    selected: s,
                    visible_offset: scrolled(old(self).visible_offset, s, old(self).layout.tree.height),
                    ..*old(self)
                })
            },
    {
        if self.visible.len() == 0 {
            self.selected = 0;
            return;
        }
        self.selected = if self.selected < self.visible.len() - 1 {
            self.selected + 1
        } else {
            self.visible.len() - 1
        };
        self.keep_selection_visible();
    }

    /// Moves the selection one row up, staying on the first row.
    pub fn select_previous(&mut self)
        ensures
            ({
                let s = if old(self).selected >= 1 {
                    (old(self).selected - 1) as usize
                } else {
                    0
                };
                *final(self) == (App {
                    selected: s,
                    visible_offset: scrolled(old(self).visible_offset, s, old(self).layout.tree.height),
                    ..*old(self)
                })
            }),
    {
        self.selected = self.selected.saturating_sub(1);
        self.keep_selection_visible();
    }

    fn select_node(&mut self, node_id: usize)
        ensures
            final(self).selected_node_from(*old(self), node_id),
    {
        match position_of(&self.visible, node_id) {
            Some(index) => {
                self.selected = index;
                self.keep_selection_visible();
            },
            None => {},
        }
    }

    /// Opens or closes the selected group; opening it asks for checks of
    /// the hosts below it.
    pub fn toggle_selected_group(&mut self)
        requires
            old(self).wf(),
        ensures
            final(self).wf(),
            final(self).toggled_from(*old(self)),
    {
        let node_id = match self.selected_node_id() {
            Some(id) => id,
            None => {
                return;
            },
        };
        assert(self.nv()[node_id as int] == self.nodes@[node_id as int]@);
        if self.nodes[node_id].kind.is_host() {
            return;
        }
        let ghost pre = *self;
        if self.expanded.insert(node_id) {
            self.check_hosts_below(node_id);
        } else {
            self.expanded.remove(&node_id);
            assert(self.expanded@ =~= pre.expanded@.remove(node_id));
        }
        self.rebuild_visible();
    }

    /// Closes the selected group, or, when it is not an open group, selects
    /// its parent.
    pub fn collapse_selected(&mut self)
        requires
            old(self).wf(),
        ensures
            final(self).wf(),
            match old(self).selected_node_spec() {
                Some(n) => if old(self).nv()[n as int].kind !is Host && old(self).expanded@.contains(n) {
                    &&& final(self).expanded@ == old(self).expanded@.remove(n)
                    &&& final(self).rebuilt_from(App { expanded: final(self).expanded, ..*old(self) })
                } else {
                    match old(self).nv()[n as int].parent {
                        Some(p) => final(self).selected_node_from(*old(self), p),
                        None => *final(self) == *old(self),
                    }
                },
                None => *final(self) == *old(self),
            },
    {
        let node_id = match self.selected_node_id() {
            Some(id) => id,
            None => {
                return;
            },
        };
        assert(self.nv()[node_id as int] == self.nodes@[node_id as int]@);
        if !self.nodes[node_id].kind.is_host() && self.expanded.contains(&node_id) {
            let ghost pre = *self;
            self.expanded.remove(&node_id);
            assert(self.expanded@ =~= pre.expanded@.remove(node_id));
            self.rebuild_visible();
        } else {
            match self.nodes[node_id].parent {
                Some(parent) => self.select_node(parent),
                None => {},
            }
        }
    }

    /// Opens the selected group (asking for checks of the hosts below it
    /// when it was closed) and rebuilds the rows; nothing on a host.
    pub fn expand_or_enter_selected(&mut self)
        requires
            old(self).wf(),
        ensures
            final(self).wf(),
            match old(self).selected_node_spec() {
                Some(n) => if old(self).nv()[n as int].kind !is Host {
                    &&& final(self).expanded@ == old(self).expanded@.insert(n)
                    &&& (final(self).reachability@, target_views(final(self).pending_checks@)) == if old(
                        self,
                    ).expanded@.contains(n) {
                        (old(self).reachability@, target_views(old(self).pending_checks@))
                    } else {
                        old(self).checks_below(n)
                    }
                    &&& final(self).rebuilt_from(
                        App {
                            expanded: final(self).expanded,
                            reachability: final(self).reachability,
                            pending_checks: final(self).pending_checks,
                            ..*old(self)
                        },
                    )
                } else {
                    *final(self) == *old(self)
                },
                None => *final(self) == *old(self),
            },
    {
        let node_id = match self.selected_node_id() {
            Some(id) => id,
            None => {
                return;
            },
        };
        assert(self.nv()[node_id as int] == self.nodes@[node_id as int]@);
        if self.nodes[node_id].kind.is_host() {
            return;
        }
        let ghost pre = *self;
        if self.expanded.insert(node_id) {
            self.check_hosts_below(node_id);
        } else {
            assert(self.expanded@ =~= pre.expanded@.insert(node_id));
        }
        self.rebuild_visible();
    }

    /// The host of the selected row.
    pub fn selected_host(&self) -> (r: Option<&HostEntry>)
        requires
            self.wf(),
        ensures
            match self.selected_node_spec() {
                Some(n) => match self.nv()[n as int].kind {
                    NodeKind::Host(h) => r == Some(&self.config.hosts@[h as int]),
                    _ => r is None,
                },
                None => r is None,
            },
    {
        match self.selected_node_id() {
            Some(node_id) => {
                assert(self.nv()[node_id as int] == self.nodes@[node_id as int]@);
                match self.nodes[node_id].kind {
                    NodeKind::Host(host_index) => {
                        assert(self.nv()[node_id as int].kind is Host);
                        Some(&self.config.hosts[host_index])
                    },
                    _ => None,
                }
            },
            None => None,
        }
    }

    /// The node of the selected row.
    pub fn selected_node(&self) -> (r: Option<&Node>)
        requires
            self.wf(),
        ensures
            match self.selected_node_spec() {
                Some(n) => r == Some(&self.nodes@[n as int]),
                None => r is None,
            },
    {
        match self.selected_node_id() {
            Some(node_id) => Some(&self.nodes[node_id]),
            None => None,
        }
    }

    /// Selects the row under a cell of the tree; whether there was one.
    pub fn select_at(&mut self, terminal_column: u16, terminal_row: u16) -> (r: bool)
        ensures
            match old(self).row_at(terminal_column, terminal_row) {
                Some(i) => r && *final(self) == (App { selected: i, ..*old(self) }),
                None => !r && *final(self) == *old(self),
            },
    {
        if !self.layout.tree.contains(terminal_column, terminal_row) {
            return false;
        }
        let delta = (terminal_row - self.layout.tree.top) as usize;
        if self.visible_offset >= self.visible.len() || delta >= self.visible.len()
            - self.visible_offset {
            return false;
        }
        self.selected = self.visible_offset + delta;
        true
    }

    /// Selects the row under a cell of the tree and, on a group, opens or
    /// closes it; whether a row was hit.
    pub fn click_at(&mut self, terminal_column: u16, terminal_row: u16) -> (r: bool)
        requires
            old(self).wf(),
        ensures
            final(self).wf(),
            match old(self).row_at(terminal_column, terminal_row) {
                Some(i) => {
                    let mid = App { selected: i, ..*old(self) };
                    &&& r
                    &&& if old(self).nv()[old(self).visible@[i as int].node_id as int].kind is Group {
                        final(self).toggled_from(mid)
                    } else {
                        *final(self) == mid
                    }
                },
                None => !r && *final(self) == *old(self),
            },
    {
        let selected = self.select_at(terminal_column, terminal_row);
        if selected {
            let node_id = self.visible[self.selected].node_id;
            assert(self.nv()[node_id as int] == self.nodes@[node_id as int]@);
            if self.nodes[node_id].kind.is_group() {
                self.toggle_selected_group();
            }
        }
        selected
    }

    /// `self` is `pre` after a press on its selected row, with the last
    /// press on a host `before` and `after` it: a press on a host that
    /// completes a double click opens it (`r`), revealing it first while
    /// searching; a press on anything else forgets the last one.
    pub open spec fn host_click_from(
        self,
        pre: App,
        now_ms: u64,
        before: Option<(u64, usize)>,
        after: Option<(u64, usize)>,
        r: bool,
    ) -> bool {
        match pre.selected_node_spec() {
            Some(n) => if (n as int) < pre.nodes.len() && pre.nv()[n as int].kind is Host {
                let (open, next) = click_step(before, now_ms, n);
                &&& r == open
                &&& after == next
                &&& if open && pre.input_mode == InputMode::Search {
                    self.revealed_from(pre)
                } else {
                    self == pre
                }
            } else {
                !r && after is None && self == pre
            },
            None => !r && after is None && self == pre,
        }
    }

    /// A left press on a cell of the tree, at `now_ms` milliseconds, with
    /// the last press on a host in `previous`: the row under the cell is
    /// selected, a group is opened or closed, and a second press on the
    /// same host within the double-click interval opens that host (the
    /// result), after revealing it while searching. A press that hits no
    /// row, or a row that is no host, forgets the last press.
    pub fn click_host(
        &mut self,
        terminal_column: u16,
        terminal_row: u16,
        now_ms: u64,
        previous: &mut Option<(u64, usize)>,
    ) -> (open: bool)
        requires
            old(self).wf(),
        ensures
            final(self).wf(),
            match old(self).row_at(terminal_column, terminal_row) {
                Some(i) => {
                    let mid = App { selected: i, ..*old(self) };
                    if old(self).nv()[old(self).visible@[i as int].node_id as int].kind is Group {
                        &&& exists|t: App|
                            #[trigger] t.toggled_from(mid) && final(self).host_click_from(
                                t,
                                now_ms,
                                *old(previous),
                                *final(previous),
                                open,
                            )
                        &&& old(self).rows_current() ==> !open && *final(previous) is None
                            && final(self).toggled_from(mid)
                    } else {
                        final(self).host_click_from(mid, now_ms, *old(previous), *final(previous), open)
                    }
                },
                None => !open && *final(self) == *old(self) && *final(previous) is None,
            },
    {
        let ghost pre = *self;
        let hit = self.click_at(terminal_column, terminal_row);
        let ghost t = *self;
        proof {
            match pre.row_at(terminal_column, terminal_row) {
                Some(i) => {
                    let mid = App { selected: i, ..pre };
                    let id = pre.visible@[i as int].node_id;
                    if pre.nv()[id as int].kind is Group && pre.rows_current() {
                        assert(row_views(mid.visible@)[i as int].node_id == id);
                        crate::visibility::lemma_toggle_keeps_group_selected(mid, t, id);
                    }
                },
                None => {},
            }
        }
        if !hit {
            *previous = None;
            return false;
        }
        if self.selected_host().is_none() {
            *previous = None;
            return false;
        }
        let node_id = match self.selected_node_id() {
            Some(id) => id,
            None => {
                *previous = None;
                return false;
            },
        };
        let open = register_host_click(previous, now_ms, node_id);
        if open && self.input_mode == InputMode::Search {
            self.reveal_search_selection();
        }
        open
    }

    /// Whether a cell lies in the search field.
    pub fn search_contains(&self, terminal_column: u16, terminal_row: u16) -> (r: bool)
        ensures
            r == area_holds(self.layout.search, terminal_column, terminal_row),
    {
        self.layout.search.contains(terminal_column, terminal_row)
    }

    /// Whether a cell lies in the details pane.
    pub fn details_contains(&self, terminal_column: u16, terminal_row: u16) -> (r: bool)
        ensures
            r == area_holds(self.layout.details, terminal_column, terminal_row),
    {
        self.layout.details.contains(terminal_column, terminal_row)
    }

    pub fn set_search_area(&mut self, left: u16, top: u16, width: u16, height: u16)
        ensures
            *final(self) == (App {
                layout: InteractionLayout {
                    search: Area { left, top, width, height },
                    ..old(self).layout
                },
                ..*old(self)
            }),
    {
        self.layout.search = Area { left, top, width, height };
    }

    /// Records where the tree was drawn and scrolls the selection into view.
    pub fn set_tree_area(&mut self, left: u16, top: u16, width: u16, height: u16)
        ensures
            *final(self) == (App {
                layout: InteractionLayout {
                    tree: Area { left, top, width, height },
                    ..old(self).layout
                },
                visible_offset: scrolled(old(self).visible_offset, old(self).selected, height),
                ..*old(self)
            }),
    {
        self.layout.tree = Area { left, top, width, height };
        self.keep_selection_visible();
    }

    pub fn set_details_area(&mut self, left: u16, top: u16, width: u16, height: u16)
        ensures
            *final(self) == (App {
                layout: InteractionLayout {
                    details: Area { left, top, width, height },
                    ..old(self).layout
                },
                ..*old(self)
            }),
    {
        self.layout.details = Area { left, top, width, height };
    }

    pub fn embedded_ssh_enabled(&self) -> (r: bool)
        ensures
            r == self.embedded_ssh_enabled,
    {
        self.embedded_ssh_enabled
    }

    pub fn show_connection_failure(&mut self, failure: ConnectionFailure)
        ensures
            *final(self) == (App { connection_failure: Some(failure), ..*old(self) }),
    {
        self.connection_failure = Some(failure);
    }

    pub fn dismiss_connection_failure(&mut self)
        ensures
            *final(self) == (App { connection_failure: None, ..*old(self) }),
    {
        self.connection_failure = None;
    }

    /// `self` is `pre` after the search was left showing its selected node:
    /// see `reveal_search_selection`.
    pub open spec fn revealed_from(self, pre: App) -> bool {
        match pre.selected_node_spec() {
            None => {
                &&& self.search@ == Seq::<char>::empty()
                &&& self.rebuilt_from(
                    App {
                        search: self.search,
                        input_mode: InputMode::Normal,
                        ..pre
                    },
                )
            },
            Some(n) => {
                let (e, highest) = walk_from(
                    pre.nv(),
                    pre.expanded@,
                    reveal_start(pre.nv(), n),
                );
                let rows = row_views(self.visible@);
                let s1 = reselected(row_views(pre.visible@), pre.selected, rows);
                let o1 = scrolled(pre.visible_offset, s1, pre.layout.tree.height);
                &&& self.expanded@ == e
                &&& self.search@ == Seq::<char>::empty()
                &&& rows == visible_rows(pre.nv(), e, Seq::<char>::empty())
                &&& match first_row(rows, n, 0) {
                    Some(i) => self.selected == i && self.visible_offset
                        == scrolled(o1, i as usize, pre.layout.tree.height),
                    None => self.selected == s1 && self.visible_offset == o1,
                }
                &&& (self.reachability@, target_views(self.pending_checks@))
                    == match highest {
                    Some(g) => pre.checks_below(g),
                    None => (pre.reachability@, target_views(pre.pending_checks@)),
                }
                &&& self == (App {
                    expanded: self.expanded,
                    search: self.search,
                    input_mode: InputMode::Normal,
                    visible: self.visible,
                    selected: self.selected,
                    visible_offset: self.visible_offset,
                    reachability: self.reachability,
                    pending_checks: self.pending_checks,
                    ..pre
                })
            },
        }
    }

    /// Leaves the search showing its selected node in the tree: the groups
    /// above it are opened (checks are asked for below the topmost one that
    /// was closed), the search is dropped and the node stays selected.
    /// Without a selected node the search is just dropped.
    pub fn reveal_search_selection(&mut self)
        requires
            old(self).wf(),
        ensures
            final(self).wf(),
            final(self).revealed_from(*old(self)),
    {
        let node_id = match self.selected_node_id() {
            Some(id) => id,
            None => {
                self.clear_search();
                return;
            },
        };
        let ghost pre = *self;
        let ghost nv = self.nv();
        assert(nv[node_id as int] == self.nodes@[node_id as int]@);
        let mut current = match self.nodes[node_id].kind {
            NodeKind::Root => None,
            NodeKind::Group => Some(node_id),
            NodeKind::Host(_) => self.nodes[node_id].parent,
        };
        assert(current == reveal_start(nv, node_id));
        let ghost target = walk_from(nv, pre.expanded@, current);
        let mut highest: Option<usize> = None;
        let mut walking = match current {
            Some(g) => g != 0,
            None => false,
        };
        while walking
            invariant
                self.wf(),
                nv == self.nv(),
                *self == (App { expanded: self.expanded, ..pre }),
                walking == (current matches Some(g) && g != 0),
                current matches Some(g) ==> (g as int) < nv.len(),
                ({
                    let w = walk_from(nv, self.expanded@, current);
                    target == (w.0, if w.1 is Some {
                        w.1
                    } else {
                        highest
                    })
                }),
            decreases match current {
                Some(g) => g as int,
                None => 0,
            },
        {
            let g = current.unwrap();
            assert(nv[g as int] == self.nodes@[g as int]@);
            if self.expanded.insert(g) {
                highest = Some(g);
            }
            current = self.nodes[g].parent;
            walking = match current {
                Some(p) => p != 0,
                None => false,
            };
        }
        assert(walk_from(nv, self.expanded@, current) == (self.expanded@, None::<usize>));
        self.search = String::new();
        self.input_mode = InputMode::Normal;
        self.rebuild_visible();
        let ghost rebuilt = *self;
        assert(self.expanded@ == target.0);
        assert(highest == target.1);
        self.select_node(node_id);
        let ghost selected = *self;
        proof {
            lemma_first_row(row_views(rebuilt.visible@), node_id, 0);
        }
        match highest {
            Some(group_id) => {
                assert(selected.checks_below(group_id) == pre.checks_below(group_id));
                self.check_hosts_below(group_id);
            },
            None => {},
        }
        let ghost rows = row_views(self.visible@);
        let ghost s1 = reselected(row_views(pre.visible@), pre.selected, rows);
        let ghost o1 = scrolled(pre.visible_offset, s1, pre.layout.tree.height);
        assert(rows == row_views(rebuilt.visible@));
        assert(match first_row(rows, node_id, 0) {
            Some(i) => self.selected == i && self.visible_offset == scrolled(
                o1,
                i as usize,
                pre.layout.tree.height,
            ),
            None => self.selected == s1 && self.visible_offset == o1,
        });
    }

    /// Takes in the results of checks, in order.
    pub fn poll_reachability(&mut self, results: Vec<CheckResult>)
        ensures
            final(self).reachability@ == apply_results(old(self).reachability@, results@),
            *final(self) == (App {
                reachability: final(self).reachability,
                checks_in_flight: if old(self).checks_in_flight >= results.len() {
                    (old(self).checks_in_flight - results.len()) as usize
                } else {
                    0
                },
                ..*old(self)
            }),
    {
        let ghost start = self.reachability@;
        let mut i: usize = 0;
        while i < results.len()
            invariant
                i <= results.len(),
                self.reachability@ == apply_results(start, results@.take(i as int)),
                *self == (App { reachability: self.reachability, ..*old(self) }),
            decreases results.len() - i,
        {
            let result = results[i];
            assert(results@.take(i + 1).drop_last() =~= results@.take(i as int));
            self.reachability.insert(result.host_index, result.reachability);
            i = i + 1;
        }
        assert(results@.take(i as int) =~= results@);
        self.checks_in_flight = self.checks_in_flight.saturating_sub(results.len());
    }

    /// Hands out the checks asked for, to be run; they count as in flight
    /// until their results come in.
    pub fn take_pending_checks(&mut self) -> (r: Vec<CheckTarget>)
        ensures
            r@ == old(self).pending_checks@,
            final(self).pending_checks@ == Seq::<CheckTarget>::empty(),
            *final(self) == (App {
                pending_checks: final(self).pending_checks,
                checks_in_flight: if old(self).checks_in_flight + r.len() <= usize::MAX {
                    (old(self).checks_in_flight + r.len()) as usize
                } else {
                    usize::MAX
                },
                ..*old(self)
            }),
    {
        let mut taken: Vec<CheckTarget> = Vec::new();
        std::mem::swap(&mut taken, &mut self.pending_checks);
        self.checks_in_flight = self.checks_in_flight.saturating_add(taken.len());
        taken
    }

    /// No check waits to be run and none is running.
    pub fn reachability_idle(&self) -> (r: bool)
        ensures
            r == (self.pending_checks.len() == 0 && self.checks_in_flight == 0),
    {
        self.pending_checks.len() == 0 && self.checks_in_flight == 0
    }

    /// The host of the selected row, as an index into the configuration.
    pub open spec fn selected_host_index(self) -> Option<usize> {
        match self.selected_node_spec() {
            Some(n) => match self.nv()[n as int].kind {
                NodeKind::Host(h) => Some(h),
                _ => None,
            },
            None => None,
        }
    }

    /// The terminal area inside the details pane's border: left, top,
    /// width and height.
    pub fn embedded_terminal_area(&self) -> (r: (u16, u16, u16, u16))
        ensures
            r == (
                area_inside(self.layout.details).left,
                area_inside(self.layout.details).top,
                area_inside(self.layout.details).width,
                area_inside(self.layout.details).height,
            ),
    {
        let area = self.layout.details.inner();
        (area.left, area.top, area.width, area.height)
    }

    /// Rows and columns of the embedded terminal.
    pub open spec fn terminal_rows_cols(self) -> (u16, u16) {
        (area_inside(self.layout.details).height, area_inside(self.layout.details).width)
    }

    fn embedded_terminal_size(&self) -> (r: (u16, u16))
        ensures
            r == self.terminal_rows_cols(),
    {
        let (_, _, cols, rows) = self.embedded_terminal_area();
        (rows, cols)
    }

    /// Starts an embedded session on the selected host, unless one is open
    /// or no host is selected; returns what the caller must start.
    /// `self` is `pre` with an embedded session started on the selected
    /// host, `launch` saying what to start; nothing when a session is open
    /// or no host is selected.
    pub open spec fn embedded_started(self, pre: App, launch: Option<EmbeddedLaunch>) -> bool {
        match (pre.embedded_session, pre.selected_host_index()) {
            (None, Some(h)) => {
                let host = pre.config.hosts@[h as int];
                let size = clamp_size(pre.terminal_rows_cols().0, pre.terminal_rows_cols().1);
                &&& launch matches Some(l) && l.alias == host.alias && string_views(l.arguments@)
                    == seq![seq!['-', 'F'], pre.config.source@, seq!['-', '-'], host.alias@] && (
                l.rows,
                l.cols,
                ) == size
                &&& self == (App {
                    embedded_session: Some(
                        EmbeddedSession {
                            alias: host.alias,
                            focus: EmbeddedFocus::Terminal,
                            exit: None,
                            rows: size.0,
                            cols: size.1,
                            selection: None,
                        },
                    ),
                    ..pre
                })
            },
            _ => launch is None && self == pre,
        }
    }

    pub fn start_embedded_session(&mut self) -> (r: Option<EmbeddedLaunch>)
        requires
            old(self).wf(),
        ensures
            final(self).wf(),
            final(self).embedded_started(*old(self), r),
    {
        if self.embedded_session.is_some() {
            return None;
        }
        let alias = match self.selected_host() {
            Some(host) => host.alias.clone(),
            None => {
                return None;
            },
        };
        let (rows, cols) = self.embedded_terminal_size();
        let arguments = ssh_arguments(self.config.source.as_str(), alias.as_str());
        let session = EmbeddedSession::new(alias.clone(), rows, cols);
        let launch = EmbeddedLaunch { alias, arguments, rows: session.rows, cols: session.cols };
        self.embedded_session = Some(session);
        Some(launch)
    }

    /// Takes in what waiting on the session's process observed; a session
    /// that ended cleanly is closed.
    pub fn poll_embedded_session(&mut self, outcome: WaitOutcome)
        ensures
            match old(self).embedded_session {
                Some(s) => {
                    let (p, s2) = polled(s, outcome);
                    *final(self) == (App {
                        embedded_session: if p == EmbeddedPoll::Succeeded {
                            None
                        } else {
                            Some(s2)
                        },
                        ..*old(self)
                    })
                },
                None => *final(self) == *old(self),
            },
    {
        match self.embedded_session {
            Some(ref mut session) => {
                let update = session.poll(outcome);
                if update == EmbeddedPoll::Succeeded {
                    self.embedded_session = None;
                }
            },
            None => {},
        }
    }

    /// The size the running session's terminal must be given now, if it
    /// changed; the session records it.
    pub fn sync_embedded_terminal_size(&mut self) -> (r: Option<(u16, u16)>)
        ensures
            match old(self).embedded_session {
                Some(s) => {
                    let size = clamp_size(
                        old(self).terminal_rows_cols().0,
                        old(self).terminal_rows_cols().1,
                    );
                    if s.exit is None && size != (s.rows, s.cols) {
                        r == Some(size) && *final(self) == (App {
                            embedded_session: Some(EmbeddedSession { rows: size.0, cols: size.1, ..s }),
                            ..*old(self)
                        })
                    } else {
                        r is None && *final(self) == *old(self)
                    }
                },
                None => r is None && *final(self) == *old(self),
            },
    {
        let (rows, cols) = self.embedded_terminal_size();
        match self.embedded_session {
            Some(ref mut session) => {
                if session.is_running() {
                    match session.pending_resize(rows, cols) {
                        Some(size) => {
                            session.record_size(size);
                            Some(size)
                        },
                        None => None,
                    }
                } else {
                    None
                }
            },
            None => None,
        }
    }

    pub fn embedded_session_running(&self) -> (r: bool)
        ensures
            r == (self.embedded_session matches Some(s) && s.exit is None),
    {
        match &self.embedded_session {
            Some(session) => session.is_running(),
            None => false,
        }
    }

    pub fn embedded_session_failed(&self) -> (r: bool)
        ensures
            r == (self.embedded_session matches Some(s) && s.exit is Some),
    {
        match &self.embedded_session {
            Some(session) => !session.is_running(),
            None => false,
        }
    }

    pub fn embedded_terminal_focused(&self) -> (r: bool)
        ensures
            r == (self.embedded_session matches Some(s) && s.focus == EmbeddedFocus::Terminal),
    {
        match &self.embedded_session {
            Some(session) => session.focus == EmbeddedFocus::Terminal,
            None => false,
        }
    }

    /// `self` is `pre` with the keyboard given to the running session.
    pub open spec fn terminal_focused_from(self, pre: App) -> bool {
        match pre.embedded_session {
            Some(s) => if s.exit is None {
                self == (App {
                    embedded_session: Some(EmbeddedSession { focus: EmbeddedFocus::Terminal, ..s }),
                    ..pre
                })
            } else {
                self == pre
            },
            None => self == pre,
        }
    }

    /// Gives the keyboard to the running session.
    pub fn focus_embedded_terminal(&mut self)
        ensures
            final(self).terminal_focused_from(*old(self)),
    {
        match self.embedded_session {
            Some(ref mut session) => {
                if session.is_running() {
                    session.focus = EmbeddedFocus::Terminal;
                }
            },
            None => {},
        }
    }

    /// Gives the keyboard to the tree.
    pub fn focus_tree(&mut self)
        ensures
            match old(self).embedded_session {
                Some(s) => *final(self) == (App {
                    embedded_session: Some(EmbeddedSession { focus: EmbeddedFocus::Tree, ..s }),
                    ..*old(self)
                }),
                None => *final(self) == *old(self),
            },
    {
        match self.embedded_session {
            Some(ref mut session) => {
                session.focus = EmbeddedFocus::Tree;
            },
            None => {},
        }
    }

    /// Moves the keyboard between the running session and the tree.
    pub fn toggle_embedded_focus(&mut self)
        ensures
            match old(self).embedded_session {
                Some(s) => if s.exit is None {
                    *final(self) == (App {
                        embedded_session: Some(
                            EmbeddedSession {
                                focus: if s.focus == EmbeddedFocus::Terminal {
                                    EmbeddedFocus::Tree
                                } else {
                                    EmbeddedFocus::Terminal
                                },
                                ..s
                            },
                        ),
                        ..*old(self)
                    })
                } else {
                    *final(self) == *old(self)
                },
                None => *final(self) == *old(self),
            },
    {
        match self.embedded_session {
            Some(ref mut session) => {
                if session.is_running() {
                    session.focus = match session.focus {
                        EmbeddedFocus::Terminal => EmbeddedFocus::Tree,
                        EmbeddedFocus::Tree => EmbeddedFocus::Terminal,
                    };
                }
            },
            None => {},
        }
    }

    pub fn close_embedded_session(&mut self)
        ensures
            *final(self) == (App { embedded_session: None, ..*old(self) }),
    {
        self.embedded_session = None;
    }

    /// Input typed or pasted for the running session: its selection is
    /// dropped and the input goes to the terminal. Whether it does.
    fn accept_embedded_input(&mut self) -> (r: bool)
        ensures
            match old(self).embedded_session {
                Some(s) => if s.exit is None {
                    r && *final(self) == (App {
                        embedded_session: Some(EmbeddedSession { selection: None, ..s }),
                        ..*old(self)
                    })
                } else {
                    !r && *final(self) == *old(self)
                },
                None => !r && *final(self) == *old(self),
            },
    {
        match self.embedded_session {
            Some(ref mut session) => {
                if session.is_running() {
                    session.clear_selection();
                    true
                } else {
                    false
                }
            },
            None => false,
        }
    }

    /// A key for the running session; whether it goes to the terminal.
    pub fn send_embedded_key(&mut self) -> (r: bool)
        ensures
            match old(self).embedded_session {
                Some(s) => if s.exit is None {
                    r && *final(self) == (App {
                        embedded_session: Some(EmbeddedSession { selection: None, ..s }),
                        ..*old(self)
                    })
                } else {
                    !r && *final(self) == *old(self)
                },
                None => !r && *final(self) == *old(self),
            },
    {
        self.accept_embedded_input()
    }

    /// Pasted text for the running session; whether it goes to the
    /// terminal.
    pub fn send_embedded_paste(&mut self) -> (r: bool)
        ensures
            match old(self).embedded_session {
                Some(s) => if s.exit is None {
                    r && *final(self) == (App {
                        embedded_session: Some(EmbeddedSession { selection: None, ..s }),
                        ..*old(self)
                    })
                } else {
                    !r && *final(self) == *old(self)
                },
                None => !r && *final(self) == *old(self),
            },
    {
        self.accept_embedded_input()
    }

    /// Whether a change of the window's focus goes to the session.
    pub fn send_embedded_focus(&self) -> (r: bool)
        ensures
            r == (self.embedded_session matches Some(s) && s.exit is None),
    {
        self.embedded_session_running()
    }

    /// A mouse event in terminal cells. Outside the terminal area it is
    /// ignored. When the program in the terminal does not take the mouse,
    /// the wheel scrolls the view by three rows and drops the selection.
    /// Otherwise the event, moved into the terminal's cells, goes to the
    /// session.
    pub fn handle_embedded_mouse(&mut self, mouse: MouseInput, reports_mouse: bool) -> (r:
        EmbeddedMouseStep)
        ensures
            match old(self).embedded_session {
                None => r == EmbeddedMouseStep::Ignored && *final(self) == *old(self),
                Some(s) => {
                    let a = area_inside(old(self).layout.details);
                    if !area_holds(a, mouse.column, mouse.row) {
                        r == EmbeddedMouseStep::Ignored && *final(self) == *old(self)
                    } else if !reports_mouse && mouse.kind == MouseKind::ScrollUp {
                        r == EmbeddedMouseStep::ScrollUp(3) && *final(self) == (App {
                            embedded_session: Some(EmbeddedSession { selection: None, ..s }),
                            ..*old(self)
                        })
                    } else if !reports_mouse && mouse.kind == MouseKind::ScrollDown {
                        r == EmbeddedMouseStep::ScrollDown(3) && *final(self) == (App {
                            embedded_session: Some(EmbeddedSession { selection: None, ..s }),
                            ..*old(self)
                        })
                    } else {
                        let local = MouseInput {
                            column: (mouse.column - a.left) as u16,
                            row: (mouse.row - a.top) as u16,
                            ..mouse
                        };
                        &&& final(self).embedded_session matches Some(s2)
                        &&& *final(self) == (App {
                            embedded_session: final(self).embedded_session,
                            ..*old(self)
                        })
                        &&& {
                            let (d, s2) = mouse_outcome(s, local, reports_mouse);
                            &&& final(self).embedded_session == Some(s2)
                            &&& r == match d {
                                MouseDecision::Ignored => EmbeddedMouseStep::Ignored,
                                MouseDecision::Handled => EmbeddedMouseStep::Handled,
                                MouseDecision::CopySelection => EmbeddedMouseStep::CopySelection,
                                MouseDecision::Forward => EmbeddedMouseStep::Forward(local),
                            }
                        }
                    }
                },
            },
    {
        let area = self.layout.details.inner();
        match self.embedded_session {
            Some(ref mut session) => {
                if !area.contains(mouse.column, mouse.row) {
                    return EmbeddedMouseStep::Ignored;
                }
                if !reports_mouse {
                    if mouse.kind == MouseKind::ScrollUp {
                        session.clear_selection();
                        return EmbeddedMouseStep::ScrollUp(3);
                    }
                    if mouse.kind == MouseKind::ScrollDown {
                        session.clear_selection();
                        return EmbeddedMouseStep::ScrollDown(3);
                    }
                }
                let local = MouseInput {
                    kind: mouse.kind,
                    column: mouse.column - area.left,
                    row: mouse.row - area.top,
                    shift: mouse.shift,
                };
                match session.handle_mouse(local, reports_mouse) {
                    MouseDecision::Ignored => EmbeddedMouseStep::Ignored,
                    MouseDecision::Handled => EmbeddedMouseStep::Handled,
                    MouseDecision::CopySelection => EmbeddedMouseStep::CopySelection,
                    MouseDecision::Forward => EmbeddedMouseStep::Forward(local),
                }
            },
            None => EmbeddedMouseStep::Ignored,
        }
    }

    /// Opens the selected host: in the details pane when asked to or when
    /// embedded sessions are on; else with `ssh` in the terminal when no
    /// session is open; else by giving the keyboard to the open session.
    pub fn activate_selected_host(&mut self, force_embedded: bool) -> (r: Activation)
        requires
            old(self).wf(),
        ensures
            final(self).wf(),
            if force_embedded || old(self).embedded_ssh_enabled {
                match r {
                    Activation::Embedded(l) => final(self).embedded_started(*old(self), Some(l)),
                    Activation::Nothing => final(self).embedded_started(*old(self), None),
                    _ => false,
                }
            } else if old(self).embedded_session is None {
                &&& *final(self) == *old(self)
                &&& match old(self).selected_host_index() {
                    Some(h) => r matches Activation::External { alias, arguments } && alias
                        == old(self).config.hosts@[h as int].alias && string_views(arguments@)
                        == seq![
                        seq!['-', 'F'],
                        old(self).config.source@,
                        seq!['-', '-'],
                        alias@,
                    ],
                    None => r == Activation::Nothing,
                }
            } else {
                r == Activation::FocusSession && final(self).terminal_focused_from(*old(self))
            },
    {
        if force_embedded || self.embedded_ssh_enabled {
            match self.start_embedded_session() {
                Some(launch) => Activation::Embedded(launch),
                None => Activation::Nothing,
            }
        } else if self.embedded_session.is_none() {
            match self.selected_host() {
                Some(host) => {
                    let alias = host.alias.clone();
                    let arguments = ssh_arguments(self.config.source.as_str(), alias.as_str());
                    Activation::External { alias, arguments }
                },
                None => Activation::Nothing,
            }
        } else {
            self.focus_embedded_terminal();
            Activation::FocusSession
        }
    }

    /// The text of the session's selection, given the screen's text
    /// between the selection's ends: tidied, and only when there is a
    /// selection and some text is left.
    pub fn embedded_selection_text(&self, screen_text: &str) -> (r: Option<String>)
        ensures
            if self.embedded_session matches Some(s) && s.selection is Some {
                match r {
                    Some(t) => t@ == tidy_text(screen_text@) && t@.len() > 0,
                    None => tidy_text(screen_text@).len() == 0,
                }
            } else {
                r is None
            },
    {
        match &self.embedded_session {
            Some(session) => if session.selection.is_some() {
                selection_text(screen_text)
            } else {
                None
            },
            None => None,
        }
    }

    fn collect_visible(
        &self,
        node_id: usize,
        depth: usize,
        ancestor_matches: bool,
        query: &str,
        rows: &mut Vec<VisibleRow>,
    ) -> (r: bool)
        requires
            tree_wf(self.nv()),
            node_id < self.nodes.len(),
            depth <= node_id,
        ensures
            row_views(final(rows)@) == row_views(old(rows)@) + rows_of(
                self.nv(),
                self.expanded@,
                query@,
                node_id,
                depth as nat,
                ancestor_matches,
            ).1,
            r == rows_of(self.nv(), self.expanded@, query@, node_id, depth as nat, ancestor_matches).0,
            forall|i: int|
                old(rows).len() <= i < final(rows).len() ==> (#[trigger] final(rows)@[i].node_id as int)
                    < self.nodes.len(),
        decreases self.nodes.len() - node_id,
    {
        let ghost nv = self.nv();
        let ghost e = self.expanded@;
        let node = &self.nodes[node_id];
        assert(nv[node_id as int] == node@);
        let (self_matches, indices) = match_node(node, query);
        let active = !query.is_empty();
        let traverse = active || self.expanded.contains(&node_id);
        let mut below = false;
        let mut child_rows: Vec<VisibleRow> = Vec::new();
        let ghost anc = ancestor_matches || self_matches;
        let ghost cs = nv[node_id as int].children;
        if traverse {
            let mut k: usize = 0;
            while k < node.children.len()
                invariant
                    k <= node.children.len(),
                    nv == self.nv(),
                    e == self.expanded@,
                    tree_wf(nv),
                    node_id < self.nodes.len(),
                    depth <= node_id,
                    cs == node.children@,
                    cs == nv[node_id as int].children,
                    anc == (ancestor_matches || self_matches),
                    row_views(child_rows@) + rows_of_children(
                        nv,
                        e,
                        query@,
                        node_id,
                        cs,
                        k as int,
                        (depth + 1) as nat,
                        anc,
                    ).1 == rows_of_children(nv, e, query@, node_id, cs, 0, (depth + 1) as nat, anc).1,
                    (below || rows_of_children(
                        nv,
                        e,
                        query@,
                        node_id,
                        cs,
                        k as int,
                        (depth + 1) as nat,
                        anc,
                    ).0) == rows_of_children(nv, e, query@, node_id, cs, 0, (depth + 1) as nat, anc).0,
                    forall|i: int|
                        0 <= i < child_rows.len() ==> (#[trigger] child_rows@[i].node_id as int)
                            < self.nodes.len(),
                decreases node.children.len() - k,
            {
                let child = node.children[k];
                assert(nv[node_id as int].children[k as int] == child);
                assert(node_id < child && child < nv.len());
                let ghost before = row_views(child_rows@);
                let ghost before_rows = child_rows@;
                let ghost here = rows_of(nv, e, query@, child, (depth + 1) as nat, anc);
                let ghost rest = rows_of_children(
                    nv,
                    e,
                    query@,
                    node_id,
                    cs,
                    k + 1,
                    (depth + 1) as nat,
                    anc,
                );
                assert(rows_of_children(nv, e, query@, node_id, cs, k as int, (depth + 1) as nat, anc)
                    == (here.0 || rest.0, here.1 + rest.1));
                let m = self.collect_visible(
                    child,
                    depth + 1,
                    ancestor_matches || self_matches,
                    query,
                    &mut child_rows,
                );
                assert(before + (here.1 + rest.1) =~= (before + here.1) + rest.1);
                assert forall|i: int| 0 <= i < child_rows.len() implies (
                #[trigger] child_rows@[i].node_id as int) < self.nodes.len() by {
                    if i < before_rows.len() {
                        assert(row_views(child_rows@)[i] == before[i]);
                        assert(before[i] == before_rows[i]@);
                    }
                }
                below = below || m;
                k = k + 1;
            }
            assert(rows_of_children(nv, e, query@, node_id, cs, k as int, (depth + 1) as nat, anc).1
                =~= Seq::<RowView>::empty());
            assert(row_views(child_rows@) + Seq::<RowView>::empty() =~= row_views(child_rows@));
        }
        if !active || ancestor_matches || self_matches || below {
            let ghost before = row_views(rows@);
            let row = VisibleRow { node_id, depth, matched_indices: indices };
            rows.push(row);
            assert(row_views(rows@) =~= before.push(row@));
            let ghost mid = rows@;
            let ghost extra = child_rows@;
            rows.append(&mut child_rows);
            assert(rows@ =~= mid + extra);
            assert(row_views(rows@) =~= row_views(mid) + row_views(extra));
            assert(before.push(row@) + row_views(extra) =~= before + (seq![row@] + row_views(extra)));
            assert forall|i: int| old(rows).len() <= i < rows.len() implies (
            #[trigger] rows@[i].node_id as int) < self.nodes.len() by {
                if i >= mid.len() {
                    assert(rows@[i] == extra[i - mid.len()]);
                }
            }
            true
        } else {
            assert(row_views(rows@) =~= row_views(old(rows)@) + Seq::<RowView>::empty());
            false
        }
    }
}

} // verus!
