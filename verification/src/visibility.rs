//! What the rows of the tree show: folding, searching and revealing.
use vstd::prelude::*;

use crate::app::{
    App,
    InputMode,
    first_row,
    lemma_first_row,
    node_match,
    reselected,
    reveal_start,
    reveal_walk,
    rows_of,
    rows_of_children,
    scrolled,
    selected_id,
    visible_rows,
    walk_from,
};
use crate::text::trim;
use crate::tree::{NodeView, RowView, ancestors, row_views, tree_wf};

verus! {

/// Some row shows node `id`.
pub open spec fn shows(rows: Seq<RowView>, id: usize) -> bool {
    exists|i: int| 0 <= i < rows.len() && #[trigger] rows[i].node_id == id
}

/// The rows of the root's children, for a query.
pub open spec fn root_rows(nodes: Seq<NodeView>, expanded: Set<usize>, query: Seq<char>) -> Seq<RowView> {
    rows_of_children(nodes, expanded, query, 0, nodes[0].children, 0, 0, false).1
}

/// A node is shown, whatever its depth and its ancestors.
pub open spec fn live(nodes: Seq<NodeView>, expanded: Set<usize>, query: Seq<char>, id: usize) -> bool {
    forall|d: nat, a: bool| #[trigger] rows_of(nodes, expanded, query, id, d, a).0
}

/// The rows of the child `cs[j]` lie among the rows of the children from
/// `k` on; when the child is shown, so are they.
pub proof fn lemma_child_rows_in_list(
    nodes: Seq<NodeView>,
    expanded: Set<usize>,
    query: Seq<char>,
    parent: usize,
    cs: Seq<usize>,
    k: int,
    j: int,
    depth: nat,
    anc: bool,
)
    requires
        0 <= k <= j < cs.len(),
        parent < cs[j],
        (cs[j] as int) < nodes.len(),
    ensures
        rows_of(nodes, expanded, query, cs[j], depth, anc).0 ==> rows_of_children(
            nodes,
            expanded,
            query,
            parent,
            cs,
            k,
            depth,
            anc,
        ).0,
        forall|i: int|
            0 <= i < rows_of(nodes, expanded, query, cs[j], depth, anc).1.len()
                ==> rows_of_children(nodes, expanded, query, parent, cs, k, depth, anc).1.contains(
                #[trigger] rows_of(nodes, expanded, query, cs[j], depth, anc).1[i],
            ),
    decreases j - k,
{
    let child = rows_of(nodes, expanded, query, cs[j], depth, anc);
    let list = rows_of_children(nodes, expanded, query, parent, cs, k, depth, anc);
    let here = if parent < cs[k] && (cs[k] as int) < nodes.len() {
        rows_of(nodes, expanded, query, cs[k], depth, anc)
    } else {
        (false, Seq::<RowView>::empty())
    };
    let rest = rows_of_children(nodes, expanded, query, parent, cs, k + 1, depth, anc);
    assert(list == (here.0 || rest.0, here.1 + rest.1));
    if k < j {
        lemma_child_rows_in_list(nodes, expanded, query, parent, cs, k + 1, j, depth, anc);
        assert forall|i: int| 0 <= i < child.1.len() implies list.1.contains(#[trigger] child.1[i]) by {
            assert(rest.1.contains(child.1[i]));
            let t = choose|t: int| 0 <= t < rest.1.len() && rest.1[t] == child.1[i];
            assert(list.1[here.1.len() + t] == child.1[i]);
        }
    } else {
        assert forall|i: int| 0 <= i < child.1.len() implies list.1.contains(#[trigger] child.1[i]) by {
            assert(list.1[i] == child.1[i]);
        }
    }
}

/// A shown node's first row is its own.
pub proof fn lemma_rows_head(
    nodes: Seq<NodeView>,
    expanded: Set<usize>,
    query: Seq<char>,
    id: usize,
    depth: nat,
    anc: bool,
)
    requires
        (id as int) < nodes.len(),
        rows_of(nodes, expanded, query, id, depth, anc).0,
    ensures
        rows_of(nodes, expanded, query, id, depth, anc).1.len() > 0,
        rows_of(nodes, expanded, query, id, depth, anc).1[0].node_id == id,
{
}

/// The index of node `x` among its parent's children.
pub proof fn lemma_child_index(nodes: Seq<NodeView>, x: usize) -> (j: int)
    requires
        tree_wf(nodes),
        0 < x < nodes.len(),
    ensures
        nodes[x as int].parent is Some,
        (nodes[x as int].parent->0) < x,
        0 <= j < nodes[nodes[x as int].parent->0 as int].children.len(),
        nodes[nodes[x as int].parent->0 as int].children[j] == x,
{
    let p = nodes[x as int].parent->0;
    assert(nodes[p as int].children.contains(x));
    choose|j: int| 0 <= j < nodes[p as int].children.len() && nodes[p as int].children[j] == x
}

// ---------------------------------------------------------------------------
// Folding
// ---------------------------------------------------------------------------

proof fn lemma_unfolded_rows(nodes: Seq<NodeView>, expanded: Set<usize>, x: usize) -> (r: (nat, bool))
    requires
        tree_wf(nodes),
        0 < x < nodes.len(),
        ancestors(nodes, nodes[x as int].parent->0).subset_of(expanded),
    ensures
        rows_of(nodes, expanded, Seq::empty(), x, r.0, r.1).0,
        forall|i: int|
            0 <= i < rows_of(nodes, expanded, Seq::empty(), x, r.0, r.1).1.len() ==> root_rows(
                nodes,
                expanded,
                Seq::empty(),
            ).contains(#[trigger] rows_of(nodes, expanded, Seq::empty(), x, r.0, r.1).1[i]),
    decreases x,
{
    let q = Seq::<char>::empty();
    let j = lemma_child_index(nodes, x);
    let p = nodes[x as int].parent->0;
    if p == 0 {
        lemma_child_rows_in_list(nodes, expanded, q, 0, nodes[0].children, 0, j, 0, false);
        (0, false)
    } else {
        let pp = nodes[p as int].parent->0;
        let _ = lemma_child_index(nodes, p);
        assert(ancestors(nodes, p) == ancestors(nodes, pp).insert(p));
        assert(expanded.contains(p));
        let (dp, ap) = lemma_unfolded_rows(nodes, expanded, p);
        let cs = nodes[p as int].children;
        lemma_child_rows_in_list(nodes, expanded, q, p, cs, 0, j, dp + 1, true);
        let outer = rows_of(nodes, expanded, q, p, dp, ap);
        let list = rows_of_children(nodes, expanded, q, p, cs, 0, dp + 1, true);
        assert(outer.1 == seq![RowView { node_id: p, depth: dp, matched: Seq::empty() }] + list.1);
        let inner = rows_of(nodes, expanded, q, x, dp + 1, true);
        assert forall|i: int| 0 <= i < inner.1.len() implies root_rows(nodes, expanded, q).contains(
            #[trigger] inner.1[i],
        ) by {
            assert(list.1.contains(inner.1[i]));
            let t = choose|t: int| 0 <= t < list.1.len() && list.1[t] == inner.1[i];
            assert(outer.1[t + 1] == inner.1[i]);
            assert(root_rows(nodes, expanded, q).contains(outer.1[t + 1]));
        }
        (dp + 1, true)
    }
}

/// Without a search, a node is shown as soon as every group above it is
/// expanded.
pub proof fn law_unfolded_nodes_are_shown(nodes: Seq<NodeView>, expanded: Set<usize>, x: usize)
    requires
        tree_wf(nodes),
        0 < x < nodes.len(),
        ancestors(nodes, nodes[x as int].parent->0).subset_of(expanded),
    ensures
        shows(visible_rows(nodes, expanded, Seq::empty()), x),
{
    let q = Seq::<char>::empty();
    assert(trim(q) =~= q);
    let (d, a) = lemma_unfolded_rows(nodes, expanded, x);
    lemma_rows_head(nodes, expanded, q, x, d, a);
    let rows = rows_of(nodes, expanded, q, x, d, a).1;
    assert(root_rows(nodes, expanded, q).contains(rows[0]));
    let v = visible_rows(nodes, expanded, Seq::empty());
    let t = choose|t: int| 0 <= t < v.len() && v[t] == rows[0];
    assert(v[t].node_id == x);
}

proof fn lemma_rows_unfolded(
    nodes: Seq<NodeView>,
    expanded: Set<usize>,
    x: usize,
    depth: nat,
    anc: bool,
)
    requires
        tree_wf(nodes),
        0 < x < nodes.len(),
        ancestors(nodes, nodes[x as int].parent->0).subset_of(expanded),
    ensures
        forall|i: int|
            0 <= i < rows_of(nodes, expanded, Seq::empty(), x, depth, anc).1.len() ==> {
                let y = (#[trigger] rows_of(nodes, expanded, Seq::empty(), x, depth, anc).1[i]).node_id;
                &&& 0 < y < nodes.len()
                &&& ancestors(nodes, nodes[y as int].parent->0).subset_of(expanded)
            },
    decreases nodes.len() - x, 1int, 0int,
{
    let q = Seq::<char>::empty();
    let rows = rows_of(nodes, expanded, q, x, depth, anc);
    let cs = nodes[x as int].children;
    let list = rows_of_children(nodes, expanded, q, x, cs, 0, depth + 1, true);
    if expanded.contains(x) {
        let _ = lemma_child_index(nodes, x);
        assert(ancestors(nodes, x) == ancestors(nodes, nodes[x as int].parent->0).insert(x));
        lemma_list_unfolded(nodes, expanded, x, cs, 0, depth + 1, true);
        assert(rows.1 == seq![RowView { node_id: x, depth, matched: Seq::empty() }] + list.1);
        assert forall|i: int| 0 < i < rows.1.len() implies #[trigger] rows.1[i] == list.1[i - 1] by {}
    } else {
        assert(rows.1 == seq![RowView { node_id: x, depth, matched: Seq::empty() }]);
    }
}

proof fn lemma_list_unfolded(
    nodes: Seq<NodeView>,
    expanded: Set<usize>,
    parent: usize,
    cs: Seq<usize>,
    k: int,
    depth: nat,
    anc: bool,
)
    requires
        tree_wf(nodes),
        (parent as int) < nodes.len(),
        cs == nodes[parent as int].children,
        0 <= k,
        ancestors(nodes, parent).subset_of(expanded),
    ensures
        forall|i: int|
            0 <= i < rows_of_children(nodes, expanded, Seq::empty(), parent, cs, k, depth, anc).1.len()
                ==> {
                let y = (#[trigger] rows_of_children(
                    nodes,
                    expanded,
                    Seq::empty(),
                    parent,
                    cs,
                    k,
                    depth,
                    anc,
                ).1[i]).node_id;
                &&& 0 < y < nodes.len()
                &&& ancestors(nodes, nodes[y as int].parent->0).subset_of(expanded)
            },
    decreases nodes.len() - parent, 0int, cs.len() - k,
{
    let q = Seq::<char>::empty();
    if k < cs.len() {
        let c = cs[k];
        assert(nodes[parent as int].children[k] == c);
        assert(parent < c < nodes.len());
        assert(nodes[c as int].parent == Some(parent));
        let here = rows_of(nodes, expanded, q, c, depth, anc);
        let rest = rows_of_children(nodes, expanded, q, parent, cs, k + 1, depth, anc);
        lemma_rows_unfolded(nodes, expanded, c, depth, anc);
        lemma_list_unfolded(nodes, expanded, parent, cs, k + 1, depth, anc);
        let all = rows_of_children(nodes, expanded, q, parent, cs, k, depth, anc);
        assert(all.1 == here.1 + rest.1);
        assert forall|i: int| 0 <= i < all.1.len() implies ({
            let y = (#[trigger] all.1[i]).node_id;
            &&& 0 < y < nodes.len()
            &&& ancestors(nodes, nodes[y as int].parent->0).subset_of(expanded)
        }) by {
            if i < here.1.len() {
                assert(all.1[i] == here.1[i]);
            } else {
                assert(all.1[i] == rest.1[i - here.1.len()]);
            }
        }
    }
}

/// Without a search, every shown node has every group above it expanded:
/// a closed group hides what lies below it.
pub proof fn law_shown_nodes_are_unfolded(nodes: Seq<NodeView>, expanded: Set<usize>, i: int)
    requires
        tree_wf(nodes),
        0 <= i < visible_rows(nodes, expanded, Seq::empty()).len(),
    ensures
        ({
            let y = visible_rows(nodes, expanded, Seq::empty())[i].node_id;
            &&& 0 < y < nodes.len()
            &&& ancestors(nodes, nodes[y as int].parent->0).subset_of(expanded)
        }),
{
    let q = Seq::<char>::empty();
    assert(trim(q) =~= q);
    assert(ancestors(nodes, 0) =~= Set::<usize>::empty());
    lemma_list_unfolded(nodes, expanded, 0, nodes[0].children, 0, 0, false);
}

// ---------------------------------------------------------------------------
// Searching
// ---------------------------------------------------------------------------

/// With a search, the parent of a shown node is shown.
proof fn lemma_parent_live(nodes: Seq<NodeView>, expanded: Set<usize>, query: Seq<char>, z: usize)
    requires
        tree_wf(nodes),
        0 < z < nodes.len(),
        query.len() > 0,
        live(nodes, expanded, query, z),
    ensures
        live(nodes, expanded, query, nodes[z as int].parent->0),
{
    let j = lemma_child_index(nodes, z);
    let p = nodes[z as int].parent->0;
    let cs = nodes[p as int].children;
    assert forall|d: nat, a: bool| #[trigger] rows_of(nodes, expanded, query, p, d, a).0 by {
        let sm = node_match(nodes[p as int], query).0;
        lemma_child_rows_in_list(nodes, expanded, query, p, cs, 0, j, d + 1, a || sm);
        assert(rows_of(nodes, expanded, query, z, d + 1, a || sm).0);
    }
}

/// With a search, every group above a shown node is shown.
proof fn lemma_ancestors_live(nodes: Seq<NodeView>, expanded: Set<usize>, query: Seq<char>, z: usize)
    requires
        tree_wf(nodes),
        0 < z < nodes.len(),
        query.len() > 0,
        live(nodes, expanded, query, z),
    ensures
        forall|y: usize| #[trigger] ancestors(nodes, z).contains(y) ==> live(nodes, expanded, query, y),
    decreases z,
{
    let _ = lemma_child_index(nodes, z);
    let p = nodes[z as int].parent->0;
    lemma_parent_live(nodes, expanded, query, z);
    assert(ancestors(nodes, z) == ancestors(nodes, p).insert(z));
    if p != 0 {
        lemma_ancestors_live(nodes, expanded, query, p);
    } else {
        assert(ancestors(nodes, p) =~= Set::<usize>::empty());
    }
}

/// A node shown together with every group above it has its rows among
/// the rows of the tree.
proof fn lemma_live_rows(nodes: Seq<NodeView>, expanded: Set<usize>, query: Seq<char>, z: usize) -> (r: (
    nat,
    bool,
))
    requires
        tree_wf(nodes),
        0 < z < nodes.len(),
        query.len() > 0,
        forall|y: usize| #[trigger] ancestors(nodes, z).contains(y) ==> live(nodes, expanded, query, y),
    ensures
        rows_of(nodes, expanded, query, z, r.0, r.1).0,
        forall|i: int|
            0 <= i < rows_of(nodes, expanded, query, z, r.0, r.1).1.len() ==> root_rows(
                nodes,
                expanded,
                query,
            ).contains(#[trigger] rows_of(nodes, expanded, query, z, r.0, r.1).1[i]),
    decreases z,
{
    let j = lemma_child_index(nodes, z);
    let p = nodes[z as int].parent->0;
    assert(ancestors(nodes, z) == ancestors(nodes, p).insert(z));
    assert(ancestors(nodes, z).contains(z));
    assert(live(nodes, expanded, query, z));
    if p == 0 {
        lemma_child_rows_in_list(nodes, expanded, query, 0, nodes[0].children, 0, j, 0, false);
        assert(rows_of(nodes, expanded, query, z, 0, false).0);
        (0, false)
    } else {
        assert forall|y: usize| #[trigger] ancestors(nodes, p).contains(y) implies live(
            nodes,
            expanded,
            query,
            y,
        ) by {
            assert(ancestors(nodes, z).contains(y));
        }
        let (dp, ap) = lemma_live_rows(nodes, expanded, query, p);
        let cs = nodes[p as int].children;
        let sm = node_match(nodes[p as int], query).0;
        lemma_child_rows_in_list(nodes, expanded, query, p, cs, 0, j, dp + 1, ap || sm);
        let outer = rows_of(nodes, expanded, query, p, dp, ap);
        let list = rows_of_children(nodes, expanded, query, p, cs, 0, dp + 1, ap || sm);
        assert(outer.1 == seq![
            RowView { node_id: p, depth: dp, matched: node_match(nodes[p as int], query).1 },
        ] + list.1);
        let inner = rows_of(nodes, expanded, query, z, dp + 1, ap || sm);
        assert(inner.0);
        assert forall|i: int| 0 <= i < inner.1.len() implies root_rows(nodes, expanded, query).contains(
            #[trigger] inner.1[i],
        ) by {
            assert(list.1.contains(inner.1[i]));
            let t = choose|t: int| 0 <= t < list.1.len() && list.1[t] == inner.1[i];
            assert(outer.1[t + 1] == inner.1[i]);
            assert(root_rows(nodes, expanded, query).contains(outer.1[t + 1]));
        }
        (dp + 1, ap || sm)
    }
}

/// The groups above a node's ancestors are its ancestors.
proof fn lemma_ancestors_closed(nodes: Seq<NodeView>, x: usize, y: usize)
    requires
        ancestors(nodes, x).contains(y),
    ensures
        ancestors(nodes, y).subset_of(ancestors(nodes, x)),
    decreases x,
{
    if x != 0 && (x as int) < nodes.len() && y != x {
        match nodes[x as int].parent {
            Some(p) => if p < x {
                lemma_ancestors_closed(nodes, p, y);
            },
            None => {},
        }
    }
}

/// With a search, a node that matches it is shown, and so is every group
/// above it.
pub proof fn law_matching_nodes_are_shown_with_their_ancestors(
    nodes: Seq<NodeView>,
    expanded: Set<usize>,
    search: Seq<char>,
    x: usize,
)
    requires
        tree_wf(nodes),
        0 < x < nodes.len(),
        trim(search).len() > 0,
        node_match(nodes[x as int], trim(search)).0,
    ensures
        forall|y: usize| #[trigger]
            ancestors(nodes, x).contains(y) ==> shows(visible_rows(nodes, expanded, search), y),
{
    let q = trim(search);
    assert forall|d: nat, a: bool| #[trigger] rows_of(nodes, expanded, q, x, d, a).0 by {}
    lemma_ancestors_live(nodes, expanded, q, x);
    assert forall|y: usize| #[trigger]
        ancestors(nodes, x).contains(y) implies shows(visible_rows(nodes, expanded, search), y) by {
        lemma_ancestors_closed(nodes, x, y);
        lemma_ancestors_in_range(nodes, x, y);
        let (d, a) = lemma_live_rows(nodes, expanded, q, y);
        lemma_rows_head(nodes, expanded, q, y, d, a);
        let rows = rows_of(nodes, expanded, q, y, d, a).1;
        assert(root_rows(nodes, expanded, q).contains(rows[0]));
        let v = visible_rows(nodes, expanded, search);
        let t = choose|t: int| 0 <= t < v.len() && v[t] == rows[0];
        assert(v[t].node_id == y);
    }
}

/// A node's ancestors are nodes other than the root.
proof fn lemma_ancestors_in_range(nodes: Seq<NodeView>, x: usize, y: usize)
    requires
        ancestors(nodes, x).contains(y),
    ensures
        0 < y < nodes.len(),
    decreases x,
{
    if x != 0 && (x as int) < nodes.len() && y != x {
        match nodes[x as int].parent {
            Some(p) => if p < x {
                lemma_ancestors_in_range(nodes, p, y);
            },
            None => {},
        }
    }
}

proof fn lemma_hidden(
    nodes: Seq<NodeView>,
    expanded: Set<usize>,
    query: Seq<char>,
    id: usize,
    depth: nat,
)
    requires
        query.len() > 0,
        forall|n: int| 0 <= n < nodes.len() ==> !(#[trigger] node_match(nodes[n], query).0),
    ensures
        rows_of(nodes, expanded, query, id, depth, false) == (false, Seq::<RowView>::empty()),
    decreases nodes.len() - id, 1int, 0int,
{
    if (id as int) < nodes.len() {
        assert(!node_match(nodes[id as int], query).0);
        lemma_hidden_list(nodes, expanded, query, id, nodes[id as int].children, 0, depth + 1);
    }
}

proof fn lemma_hidden_list(
    nodes: Seq<NodeView>,
    expanded: Set<usize>,
    query: Seq<char>,
    parent: usize,
    cs: Seq<usize>,
    k: int,
    depth: nat,
)
    requires
        query.len() > 0,
        forall|n: int| 0 <= n < nodes.len() ==> !(#[trigger] node_match(nodes[n], query).0),
    ensures
        rows_of_children(nodes, expanded, query, parent, cs, k, depth, false) == (
            false,
            Seq::<RowView>::empty(),
        ),
    decreases nodes.len() - parent, 0int, cs.len() - k,
{
    if 0 <= k < cs.len() {
        if parent < cs[k] && (cs[k] as int) < nodes.len() {
            lemma_hidden(nodes, expanded, query, cs[k], depth);
        }
        lemma_hidden_list(nodes, expanded, query, parent, cs, k + 1, depth);
        assert(Seq::<RowView>::empty() + Seq::<RowView>::empty() =~= Seq::<RowView>::empty());
    }
}

/// Whitespace around the search changes no row.
pub proof fn law_search_ignores_surrounding_whitespace(
    nodes: Seq<NodeView>,
    expanded: Set<usize>,
    search: Seq<char>,
)
    ensures
        visible_rows(nodes, expanded, search) == visible_rows(nodes, expanded, trim(search)),
{
    crate::text::lemma_trim_idempotent(search);
}

/// A search of whitespace alone shows the same rows as no search at all.
pub proof fn law_blank_search_shows_the_tree(
    nodes: Seq<NodeView>,
    expanded: Set<usize>,
    search: Seq<char>,
)
    requires
        forall|k: int| 0 <= k < search.len() ==> crate::text::is_ws(#[trigger] search[k]),
    ensures
        visible_rows(nodes, expanded, search) == visible_rows(nodes, expanded, Seq::<char>::empty()),
{
    crate::text::lemma_trim_empty_iff(search);
    crate::text::lemma_trim_idempotent(search);
    assert(trim(search) =~= Seq::<char>::empty());
}

/// With a search that no node matches, no row is shown.
pub proof fn law_search_without_matches_shows_nothing(
    nodes: Seq<NodeView>,
    expanded: Set<usize>,
    search: Seq<char>,
)
    requires
        nodes.len() > 0,
        trim(search).len() > 0,
        forall|n: int| 0 <= n < nodes.len() ==> !(#[trigger] node_match(nodes[n], trim(search)).0),
    ensures
        visible_rows(nodes, expanded, search).len() == 0,
{
    lemma_hidden_list(nodes, expanded, trim(search), 0, nodes[0].children, 0, 0);
}

// ---------------------------------------------------------------------------
// Revealing
// ---------------------------------------------------------------------------

/// Walking up from a group opens it and every group above it.
pub proof fn lemma_walk_opens_ancestors(nodes: Seq<NodeView>, expanded: Set<usize>, id: usize)
    ensures
        reveal_walk(nodes, expanded, id).0 == expanded.union(ancestors(nodes, id)),
    decreases id,
{
    if id != 0 && (id as int) < nodes.len() {
        match nodes[id as int].parent {
            Some(p) => if p < id {
                lemma_walk_opens_ancestors(nodes, expanded.insert(id), p);
                assert(expanded.insert(id).union(ancestors(nodes, p)) =~= expanded.union(
                    ancestors(nodes, p).insert(id),
                ));
            } else {
                assert(expanded.insert(id) =~= expanded.union(set![id]));
            },
            None => {
                assert(expanded.insert(id) =~= expanded.union(set![id]));
            },
        }
    } else {
        assert(expanded.union(Set::<usize>::empty()) =~= expanded);
    }
}

/// Leaving a search on a group or a host drops the search and selects
/// that node in the tree, with every group above it (and a group itself)
/// expanded.
pub proof fn law_reveal_selects_the_node(pre: App, post: App)
    requires
        pre.wf(),
        post.revealed_from(pre),
        pre.selected_node_spec() matches Some(n) && n != 0,
    ensures
        post.search@ == Seq::<char>::empty(),
        post.input_mode == InputMode::Normal,
        post.selected_node_spec() == pre.selected_node_spec(),
        ({
            let n = pre.selected_node_spec()->0;
            &&& ancestors(pre.nv(), pre.nv()[n as int].parent->0).subset_of(post.expanded@)
            &&& pre.nv()[n as int].kind is Group ==> post.expanded@.contains(n)
        }),
{
    let nv = pre.nv();
    let n = pre.selected_node_spec()->0;
    assert((n as int) < nv.len());
    let _ = lemma_child_index(nv, n);
    let p = nv[n as int].parent->0;
    let start = reveal_start(nv, n);
    assert(start is Some);
    lemma_walk_opens_ancestors(nv, pre.expanded@, start->0);
    let e = walk_from(nv, pre.expanded@, start).0;
    assert(ancestors(nv, start->0).subset_of(e));
    if nv[n as int].kind is Group {
        assert(ancestors(nv, n) == ancestors(nv, p).insert(n));
        assert(ancestors(nv, n).contains(n));
    }
    assert(ancestors(nv, p).subset_of(e));
    law_unfolded_nodes_are_shown(nv, e, n);
    let rows = visible_rows(nv, e, Seq::empty());
    lemma_first_row(rows, n, 0);
    assert(first_row(rows, n, 0) is Some);
}

// ---------------------------------------------------------------------------
// Selecting and folding
// ---------------------------------------------------------------------------

/// After the rows are rebuilt the selection is a row, or the first place
/// when there are none.
pub proof fn law_reselected_is_a_row(old_rows: Seq<RowView>, selected: usize, rows: Seq<RowView>)
    requires
        rows.len() <= usize::MAX,
    ensures
        reselected(old_rows, selected, rows) < rows.len() || (rows.len() == 0 && reselected(
            old_rows,
            selected,
            rows,
        ) == 0),
{
    if selected < old_rows.len() {
        lemma_first_row(rows, old_rows[selected as int].node_id, 0);
    }
}

/// Scrolling puts the selection among the rows in view.
pub proof fn law_scrolled_shows_selection(offset: usize, selected: usize, height: u16)
    ensures
        scrolled(offset, selected, height) <= selected,
        selected < scrolled(offset, selected, height) + if height < 1 {
            1
        } else {
            height as int
        },
{
}

/// No two rows show the same node.
pub open spec fn distinct_rows(rows: Seq<RowView>) -> bool {
    forall|i: int, j: int| 0 <= i < j < rows.len() ==> #[trigger] rows[i].node_id != #[trigger] rows[j].node_id
}

/// Two children of one group never both lie on the path up from a node.
proof fn lemma_siblings_apart(nodes: Seq<NodeView>, x: usize, c1: usize, c2: usize)
    requires
        tree_wf(nodes),
        c1 != c2,
        0 < c1 < nodes.len(),
        0 < c2 < nodes.len(),
        nodes[c1 as int].parent == nodes[c2 as int].parent,
        ancestors(nodes, x).contains(c1),
    ensures
        !ancestors(nodes, x).contains(c2),
    decreases x,
{
    if ancestors(nodes, x).contains(c2) {
        assert(x != 0 && (x as int) < nodes.len());
        let p = nodes[x as int].parent->0;
        assert(ancestors(nodes, x) == ancestors(nodes, p).insert(x));
        let q = nodes[c1 as int].parent->0;
        if x == c1 {
            assert(ancestors(nodes, q).contains(c2));
            lemma_ancestors_below(nodes, q, c2);
        } else if x == c2 {
            assert(ancestors(nodes, q).contains(c1));
            lemma_ancestors_below(nodes, q, c1);
        } else {
            lemma_siblings_apart(nodes, p, c1, c2);
        }
    }
}

/// The rows below a node show that node and nodes below it, each once.
proof fn lemma_rows_distinct(
    nodes: Seq<NodeView>,
    expanded: Set<usize>,
    query: Seq<char>,
    id: usize,
    depth: nat,
    anc: bool,
)
    requires
        tree_wf(nodes),
        0 < id < nodes.len(),
    ensures
        ({
            let rows = rows_of(nodes, expanded, query, id, depth, anc).1;
            &&& distinct_rows(rows)
            &&& forall|i: int|
                0 <= i < rows.len() ==> ancestors(nodes, #[trigger] rows[i].node_id).contains(id)
                    && (rows[i].node_id as int) < nodes.len()
        }),
    decreases nodes.len() - id, 1int, 0int,
{
    let n = nodes[id as int];
    let (m, ix) = node_match(n, query);
    let child = rows_of_children(nodes, expanded, query, id, n.children, 0, depth + 1, anc || m);
    lemma_list_distinct(nodes, expanded, query, id, n.children, 0, depth + 1, anc || m);
    let rows = rows_of(nodes, expanded, query, id, depth, anc).1;
    let p = n.parent->0;
    assert(ancestors(nodes, id) == ancestors(nodes, p).insert(id));
    let head = RowView { node_id: id, depth, matched: ix };
    if rows.len() > 0 {
        if rows.len() == 1 {
            assert(rows =~= seq![head]);
        } else {
            assert(rows =~= seq![head] + child.1);
        }
        assert forall|i: int, j: int| 0 <= i < j < rows.len() implies #[trigger] rows[i].node_id
            != #[trigger] rows[j].node_id by {
            assert(rows[j] == child.1[j - 1]);
            if i > 0 {
                assert(rows[i] == child.1[i - 1]);
            }
        }
        assert forall|i: int| 0 <= i < rows.len() implies ancestors(
            nodes,
            #[trigger] rows[i].node_id,
        ).contains(id) && (rows[i].node_id as int) < nodes.len() by {
            if i > 0 {
                assert(rows[i] == child.1[i - 1]);
            }
        }
    }
}

/// The rows of the children `cs[k..]` of `parent` show nodes below
/// `parent` and below none of `cs[..k]`, each once.
proof fn lemma_list_distinct(
    nodes: Seq<NodeView>,
    expanded: Set<usize>,
    query: Seq<char>,
    parent: usize,
    cs: Seq<usize>,
    k: int,
    depth: nat,
    anc: bool,
)
    requires
        tree_wf(nodes),
        (parent as int) < nodes.len(),
        cs == nodes[parent as int].children,
        0 <= k,
    ensures
        ({
            let rows = rows_of_children(nodes, expanded, query, parent, cs, k, depth, anc).1;
            &&& distinct_rows(rows)
            &&& forall|i: int|
                0 <= i < rows.len() ==> {
                    &&& parent < #[trigger] rows[i].node_id
                    &&& (rows[i].node_id as int) < nodes.len()
                    &&& (parent != 0 ==> ancestors(nodes, rows[i].node_id).contains(parent))
                    &&& forall|j: int|
                        0 <= j < k && j < cs.len() ==> !ancestors(nodes, rows[i].node_id).contains(
                            #[trigger] cs[j],
                        )
                }
        }),
    decreases nodes.len() - parent, 0int, cs.len() - k,
{
    if k < cs.len() {
        let c = cs[k];
        assert(parent < c && (c as int) < nodes.len());
        let here = rows_of(nodes, expanded, query, c, depth, anc).1;
        let rest = rows_of_children(nodes, expanded, query, parent, cs, k + 1, depth, anc).1;
        let rows = rows_of_children(nodes, expanded, query, parent, cs, k, depth, anc).1;
        lemma_rows_distinct(nodes, expanded, query, c, depth, anc);
        lemma_list_distinct(nodes, expanded, query, parent, cs, k + 1, depth, anc);
        assert(rows =~= here + rest);
        assert(nodes[c as int].parent == Some(parent));
        assert forall|i: int| 0 <= i < here.len() implies {
            &&& parent < #[trigger] here[i].node_id
            &&& (parent != 0 ==> ancestors(nodes, here[i].node_id).contains(parent))
            &&& forall|j: int|
                0 <= j < k + 1 && j < cs.len() ==> !ancestors(nodes, here[i].node_id).contains(
                    #[trigger] cs[j],
                ) || j == k
        } by {
            let x = here[i].node_id;
            lemma_ancestors_below(nodes, x, c);
            lemma_ancestors_closed(nodes, x, c);
            if parent != 0 {
                assert(ancestors(nodes, c) == ancestors(nodes, parent).insert(c));
                assert(ancestors(nodes, parent).contains(parent)) by {
                    let pp = nodes[parent as int].parent->0;
                    assert(ancestors(nodes, parent) == ancestors(nodes, pp).insert(parent));
                }
            }
            assert forall|j: int| 0 <= j < k + 1 && j < cs.len() && j != k implies !ancestors(
                nodes,
                x,
            ).contains(#[trigger] cs[j]) by {
                assert(cs.no_duplicates());
                assert(cs[j] != c);
                assert(nodes[cs[j] as int].parent == Some(parent));
                lemma_siblings_apart(nodes, x, c, cs[j]);
            }
        }
        assert forall|i: int, j: int| 0 <= i < j < rows.len() implies #[trigger] rows[i].node_id
            != #[trigger] rows[j].node_id by {
            if j < here.len() {
                assert(rows[i] == here[i] && rows[j] == here[j]);
            } else if i >= here.len() {
                assert(rows[i] == rest[i - here.len()] && rows[j] == rest[j - here.len()]);
            } else {
                assert(rows[i] == here[i] && rows[j] == rest[j - here.len()]);
                assert(ancestors(nodes, here[i].node_id).contains(c));
                assert(!ancestors(nodes, rest[j - here.len()].node_id).contains(cs[k]));
            }
        }
        assert forall|i: int| 0 <= i < rows.len() implies {
            &&& parent < #[trigger] rows[i].node_id
            &&& (rows[i].node_id as int) < nodes.len()
            &&& (parent != 0 ==> ancestors(nodes, rows[i].node_id).contains(parent))
            &&& forall|j: int|
                0 <= j < k && j < cs.len() ==> !ancestors(nodes, rows[i].node_id).contains(
                    #[trigger] cs[j],
                )
        } by {
            if i < here.len() {
                assert(rows[i] == here[i]);
            } else {
                assert(rows[i] == rest[i - here.len()]);
            }
        }
    }
}

/// The rows never show the root, and never show a node twice.
pub proof fn law_rows_show_each_node_once(
    nodes: Seq<NodeView>,
    expanded: Set<usize>,
    search: Seq<char>,
)
    requires
        tree_wf(nodes),
    ensures
        distinct_rows(visible_rows(nodes, expanded, search)),
        forall|i: int|
            0 <= i < visible_rows(nodes, expanded, search).len() ==> #[trigger] visible_rows(
                nodes,
                expanded,
                search,
            )[i].node_id != 0,
{
    lemma_list_distinct(nodes, expanded, trim(search), 0, nodes[0].children, 0, 0, false);
}

/// A node's ancestors lie at or below it.
proof fn lemma_ancestors_below(nodes: Seq<NodeView>, x: usize, y: usize)
    requires
        ancestors(nodes, x).contains(y),
    ensures
        y <= x,
    decreases x,
{
    if x != 0 && (x as int) < nodes.len() && y != x {
        match nodes[x as int].parent {
            Some(p) => if p < x {
                lemma_ancestors_below(nodes, p, y);
            },
            None => {},
        }
    }
}

/// With a search, the rows below a node do not depend on the expanded
/// groups.
proof fn lemma_search_rows_fixed(
    nodes: Seq<NodeView>,
    e1: Set<usize>,
    e2: Set<usize>,
    query: Seq<char>,
    id: usize,
    depth: nat,
    anc: bool,
)
    requires
        query.len() > 0,
    ensures
        rows_of(nodes, e1, query, id, depth, anc) == rows_of(nodes, e2, query, id, depth, anc),
    decreases nodes.len() - id, 1int, 0int,
{
    if id < nodes.len() {
        let n = nodes[id as int];
        let m = node_match(n, query).0;
        lemma_search_list_fixed(nodes, e1, e2, query, id, n.children, 0, depth + 1, anc || m);
    }
}

proof fn lemma_search_list_fixed(
    nodes: Seq<NodeView>,
    e1: Set<usize>,
    e2: Set<usize>,
    query: Seq<char>,
    parent: usize,
    cs: Seq<usize>,
    k: int,
    depth: nat,
    anc: bool,
)
    requires
        query.len() > 0,
    ensures
        rows_of_children(nodes, e1, query, parent, cs, k, depth, anc) == rows_of_children(
            nodes,
            e2,
            query,
            parent,
            cs,
            k,
            depth,
            anc,
        ),
    decreases nodes.len() - parent, 0int, cs.len() - k,
{
    if 0 <= k < cs.len() {
        let c = cs[k];
        if parent < c && c < nodes.len() {
            lemma_search_rows_fixed(nodes, e1, e2, query, c, depth, anc);
        }
        lemma_search_list_fixed(nodes, e1, e2, query, parent, cs, k + 1, depth, anc);
    }
}

/// With a search, folding and unfolding groups changes no row.
pub proof fn law_search_rows_ignore_folding(
    nodes: Seq<NodeView>,
    e1: Set<usize>,
    e2: Set<usize>,
    search: Seq<char>,
)
    requires
        trim(search).len() > 0,
    ensures
        visible_rows(nodes, e1, search) == visible_rows(nodes, e2, search),
{
    lemma_search_list_fixed(nodes, e1, e2, trim(search), 0, nodes[0].children, 0, 0, false);
}

/// Opening or closing the selected group keeps the rows up to date and
/// that group selected.
pub proof fn lemma_toggle_keeps_group_selected(a: App, b: App, n: usize)
    requires
        tree_wf(a.nv()),
        a.rows_current(),
        a.selected_node_spec() == Some(n),
        (n as int) < a.nodes.len(),
        a.nv()[n as int].kind is Group,
        b.toggled_from(a),
    ensures
        b.rows_current(),
        b.selected_node_spec() == Some(n),
        b.nodes == a.nodes,
        b.search == a.search,
        b.expanded@ == if a.expanded@.contains(n) {
            a.expanded@.remove(n)
        } else {
            a.expanded@.insert(n)
        },
{
    let nodes = a.nv();
    let rows = visible_rows(nodes, b.expanded@, a.search@);
    assert(row_views(b.visible@) == rows);
    let i = a.selected as int;
    if trim(a.search@).len() > 0 {
        law_search_rows_ignore_folding(nodes, a.expanded@, b.expanded@, a.search@);
        assert(rows[i].node_id == n);
    } else {
        let q = Seq::<char>::empty();
        assert(trim(a.search@) =~= q);
        crate::text::lemma_trim_idempotent(a.search@);
        assert(trim(q) =~= q);
        assert(visible_rows(nodes, a.expanded@, a.search@) == visible_rows(nodes, a.expanded@, q));
        assert(visible_rows(nodes, b.expanded@, a.search@) == visible_rows(nodes, b.expanded@, q));
        law_shown_nodes_are_unfolded(nodes, a.expanded@, i);
        let p = nodes[n as int].parent->0;
        if ancestors(nodes, p).contains(n) {
            lemma_ancestors_below(nodes, p, n);
        }
        assert(ancestors(nodes, p).subset_of(b.expanded@));
        law_unfolded_nodes_are_shown(nodes, b.expanded@, n);
    }
    assert(shows(rows, n));
    lemma_first_row(rows, n, 0);
    let j = first_row(rows, n, 0)->0;
    assert(row_views(a.visible@)[i].node_id == n);
    assert(rows.len() == b.visible@.len());
    assert(b.selected == j as usize);
    assert(row_views(b.visible@)[j].node_id == n);
    assert(j < row_views(b.visible@).len());
    assert(b.visible.len() == b.visible@.len());
    assert(b.selected as int == j);
    assert(b.selected < row_views(b.visible@).len());
    assert(selected_id(row_views(b.visible@), b.selected) == Some(n));
}

/// Opening or closing the selected group twice gives back the expanded
/// groups, the rows and the selected node that there were before.
pub proof fn law_toggle_twice_restores_the_view(a: App, b: App, c: App, n: usize)
    requires
        tree_wf(a.nv()),
        a.rows_current(),
        a.selected_node_spec() == Some(n),
        (n as int) < a.nodes.len(),
        a.nv()[n as int].kind is Group,
        b.toggled_from(a),
        c.toggled_from(b),
    ensures
        c.expanded@ == a.expanded@,
        row_views(c.visible@) == row_views(a.visible@),
        c.selected_node_spec() == a.selected_node_spec(),
{
    lemma_toggle_keeps_group_selected(a, b, n);
    lemma_toggle_keeps_group_selected(b, c, n);
    if a.expanded@.contains(n) {
        assert(b.expanded@.insert(n) =~= a.expanded@);
    } else {
        assert(b.expanded@.remove(n) =~= a.expanded@);
    }
}

/// With network checks off, opening groups asks for no check and learns
/// nothing.
pub proof fn law_checks_off_ask_nothing(app: App, node_id: usize)
    requires
        !app.network_checks_enabled,
    ensures
        app.checks_below(node_id) == (app.reachability@, crate::reachability::target_views(
            app.pending_checks@,
        )),
        crate::app::reachability_of(app.network_checks_enabled, app.reachability@, node_id)
            == crate::reachability::HostReachability::Reachable,
{
}

/// With network checks off, a browser starts knowing nothing and asking
/// for no check.
pub proof fn law_checks_off_start_empty(app: App, config: crate::ssh_config::SshConfig, embedded: bool)
    requires
        app.starts_as(config, false, embedded),
    ensures
        app.reachability@ == Map::<usize, crate::reachability::HostReachability>::empty(),
        app.pending_checks@.len() == 0,
{
    assert(crate::reachability::target_views(app.pending_checks@).len() == app.pending_checks@.len());
}

} // verus!

