//! The texts the screen shows: the header, the rows of the tree, the
//! details of the selected group or host and the footer.
use vstd::prelude::*;

use crate::app::{App, InputMode};
use crate::ssh_config::HostEntry;
use crate::text::{
    append,
    chars_of,
    decimal,
    decimal_chars,
    join,
    join_strings,
    owned,
    string_from,
    string_views,
};
use crate::tree::{NodeKind, NodeView, ancestors, path_names, tree_wf};

verus! {

pub open spec fn not_set() -> Seq<char> {
    "(not set)"@
}

/// The values joined by `separator`, or `(not set)` when there are none.
pub open spec fn joined_or_not_set(values: Seq<Seq<char>>, separator: Seq<char>) -> Seq<char> {
    if values.len() == 0 {
        not_set()
    } else {
        join(values, separator)
    }
}

pub fn empty_or_joined(values: &Vec<String>, separator: &str) -> (r: String)
    ensures
        r@ == joined_or_not_set(string_views(values@), separator@),
{
    if values.len() == 0 {
        owned("(not set)")
    } else {
        join_strings(values, separator)
    }
}

pub open spec fn or_not_set(value: Option<Seq<char>>) -> Seq<char> {
    match value {
        Some(v) => v,
        None => not_set(),
    }
}

fn value_or_not_set(value: &Option<String>) -> (r: String)
    ensures
        r@ == or_not_set(crate::ssh_config::opt_view(*value)),
{
    match value {
        Some(v) => v.clone(),
        None => owned("(not set)"),
    }
}

/// A label followed by spaces up to twelve characters.
pub open spec fn padded(label: Seq<char>) -> Seq<char> {
    if label.len() >= 12 {
        label
    } else {
        label + Seq::new((12 - label.len()) as nat, |i: int| ' ')
    }
}

pub fn padded_label(label: &str) -> (r: String)
    ensures
        r@ == padded(label@),
{
    let mut text = chars_of(label);
    let ghost start = text@;
    while text.len() < 12
        invariant
            start.len() <= text.len() <= if start.len() >= 12 {
                start.len() as int
            } else {
                12
            },
            text@ == start + Seq::new((text.len() - start.len()) as nat, |i: int| ' '),
        decreases 12 - text.len(),
    {
        let ghost before = text@;
        text.push(' ');
        assert(text@ =~= start + Seq::new((text.len() - start.len()) as nat, |i: int| ' '));
    }
    assert(start.len() >= 12 ==> text@ =~= start);
    string_from(&text)
}

/// The marker before a row's name: an open or closed group, or a host.
pub open spec fn marker_of(kind: NodeKind, expanded: bool, searching: bool) -> Seq<char> {
    match kind {
        NodeKind::Root => "  "@,
        NodeKind::Group => if expanded || searching {
            "[-] "@
        } else {
            "[+] "@
        },
        NodeKind::Host(_) => "> "@,
    }
}

/// The marker before the row of a node; a group shows as open while a
/// search is typed.
pub fn row_marker(app: &App, node_id: usize) -> (r: String)
    requires
        node_id < app.nodes.len(),
    ensures
        r@ == marker_of(
            app.nodes@[node_id as int].kind,
            app.expanded@.contains(node_id),
            app.search@.len() > 0,
        ),
{
    match app.nodes[node_id].kind {
        NodeKind::Root => owned("  "),
        NodeKind::Group => if app.expanded.contains(&node_id) || !app.search.as_str().is_empty() {
            owned("[-] ")
        } else {
            owned("[+] ")
        },
        NodeKind::Host(_) => owned("> "),
    }
}

/// Each character of a name, and whether the search matched it.
pub fn highlighted_name(name: &str, matched: &Vec<usize>) -> (r: Vec<(char, bool)>)
    ensures
        r@.len() == name@.len(),
        forall|i: int|
            0 <= i < name@.len() ==> #[trigger] r@[i] == (name@[i], matched@.contains(i as usize)),
{
    let cs = chars_of(name);
    let mut out: Vec<(char, bool)> = Vec::new();
    let mut i: usize = 0;
    while i < cs.len()
        invariant
            i <= cs.len(),
            cs@ == name@,
            out@.len() == i,
            forall|k: int| 0 <= k < i ==> #[trigger] out@[k] == (name@[k], matched@.contains(k as usize)),
        decreases cs.len() - i,
    {
        let mut hit = false;
        let mut j: usize = 0;
        while j < matched.len()
            invariant
                j <= matched.len(),
                hit == exists|m: int| 0 <= m < j && matched@[m] == i,
            decreases matched.len() - j,
        {
            if matched[j] == i {
                hit = true;
            }
            j = j + 1;
        }
        assert(hit == matched@.contains(i));
        out.push((cs[i], hit));
        i = i + 1;
    }
    out
}

// ---------------------------------------------------------------------------
// Groups
// ---------------------------------------------------------------------------

/// The path of a node: the names from the top down, joined by `/`.
pub fn node_path(app: &App, node_id: usize) -> (r: String)
    requires
        tree_wf(app.nv()),
        node_id < app.nodes.len(),
    ensures
        r@ == join(path_names(app.nv(), node_id), seq!['/']),
{
    let ghost nv = app.nv();
    let mut parts: Vec<String> = Vec::new();
    let mut current: Option<usize> = Some(node_id);
    while current.is_some()
        invariant
            nv == app.nv(),
            tree_wf(nv),
            current matches Some(c) ==> (c as int) < nv.len(),
            path_names(nv, node_id) == match current {
                Some(c) => path_names(nv, c),
                None => Seq::empty(),
            } + string_views(parts@),
        decreases match current {
            Some(c) => c as int + 1,
            None => 0,
        },
    {
        let id = current.unwrap();
        assert(nv[id as int] == app.nodes@[id as int]@);
        let ghost before = string_views(parts@);
        let node = &app.nodes[id];
        let ghost here = if nv[id as int].kind is Root {
            Seq::<Seq<char>>::empty()
        } else {
            seq![nv[id as int].name]
        };
        if !node.kind.is_root() {
            parts.insert(0, node.name.clone());
        }
        assert(string_views(parts@) =~= here + before);
        current = node.parent;
        if id > 0 {
            assert(nv[id as int].parent is Some);
        }
        match current {
            Some(p) => {
                assert(path_names(nv, id) == path_names(nv, p) + here);
                assert(path_names(nv, p) + here + before =~= path_names(nv, p) + (here + before));
            },
            None => {
                assert(path_names(nv, id) == here);
                assert(here + before =~= Seq::<Seq<char>>::empty() + (here + before));
            },
        }
    }
    assert(path_names(nv, node_id) =~= string_views(parts@));
    proof {
        reveal_strlit("/");
    }
    assert("/"@ =~= seq!['/']);
    join_strings(&parts, "/")
}

/// Node `n` lies below node `id`.
pub open spec fn below(nodes: Seq<NodeView>, n: int, id: usize) -> bool {
    &&& n != id
    &&& if id == 0 {
        n != 0
    } else {
        ancestors(nodes, n as usize).contains(id)
    }
}

/// How many of the nodes before `k` lie below `id` and are groups (or,
/// with `hosts`, hosts).
pub open spec fn count_below(nodes: Seq<NodeView>, id: usize, k: int, hosts: bool) -> nat
    decreases k,
{
    if k <= 0 {
        0
    } else {
        count_below(nodes, id, k - 1, hosts) + if below(nodes, k - 1, id) && (if hosts {
            nodes[k - 1].kind is Host
        } else {
            nodes[k - 1].kind is Group
        }) {
            1nat
        } else {
            0nat
        }
    }
}

fn lies_below(app: &App, n: usize, id: usize) -> (r: bool)
    requires
        n < app.nodes.len(),
    ensures
        r == below(app.nv(), n as int, id),
{
    if n == id {
        return false;
    }
    if id == 0 {
        return n != 0;
    }
    let ghost nv = app.nv();
    let mut current = n;
    while current != 0 && current < app.nodes.len()
        invariant
            nv == app.nv(),
            n < app.nodes.len(),
            n != id,
            id != 0,
            ancestors(nv, n).contains(id) == ancestors(nv, current).contains(id),
        decreases current,
    {
        if current == id {
            return true;
        }
        assert(nv[current as int] == app.nodes@[current as int]@);
        match app.nodes[current].parent {
            Some(p) => {
                if p < current {
                    current = p;
                } else {
                    return false;
                }
            },
            None => {
                return false;
            },
        }
    }
    false
}

/// The groups and the hosts below a node.
pub fn count_descendants(app: &App, node_id: usize) -> (r: (usize, usize))
    ensures
        r.0 == count_below(app.nv(), node_id, app.nodes.len() as int, false),
        r.1 == count_below(app.nv(), node_id, app.nodes.len() as int, true),
{
    let ghost nv = app.nv();
    let mut groups: usize = 0;
    let mut hosts: usize = 0;
    let mut n: usize = 0;
    while n < app.nodes.len()
        invariant
            n <= app.nodes.len(),
            nv == app.nv(),
            groups == count_below(nv, node_id, n as int, false),
            hosts == count_below(nv, node_id, n as int, true),
            groups <= n,
            hosts <= n,
        decreases app.nodes.len() - n,
    {
        assert(nv[n as int] == app.nodes@[n as int]@);
        if lies_below(app, n, node_id) {
            match app.nodes[n].kind {
                NodeKind::Group => {
                    groups = groups + 1;
                },
                NodeKind::Host(_) => {
                    hosts = hosts + 1;
                },
                NodeKind::Root => {},
            }
        }
        n = n + 1;
    }
    (groups, hosts)
}

// ---------------------------------------------------------------------------
// Details, header and footer
// ---------------------------------------------------------------------------

pub open spec fn pair_views(v: Seq<(String, String)>) -> Seq<(Seq<char>, Seq<char>)> {
    v.map_values(|p: (String, String)| (p.0@, p.1@))
}

/// The fields shown for a group: its path (`/` for the top), and how many
/// groups and hosts lie below it.
pub open spec fn group_field_views(nodes: Seq<NodeView>, id: usize) -> Seq<(Seq<char>, Seq<char>)> {
    let path = join(path_names(nodes, id), seq!['/']);
    seq![
        ("Path"@, if path.len() == 0 {
            seq!['/']
        } else {
            path
        }),
        ("Folders"@, decimal(count_below(nodes, id, nodes.len() as int, false))),
        ("Hosts"@, decimal(count_below(nodes, id, nodes.len() as int, true))),
    ]
}

pub fn group_fields(app: &App, node_id: usize) -> (r: Vec<(String, String)>)
    requires
        tree_wf(app.nv()),
        node_id < app.nodes.len(),
    ensures
        pair_views(r@) == group_field_views(app.nv(), node_id),
{
    let path = node_path(app, node_id);
    let shown = if path.as_str().is_empty() {
        let s = owned("/");
        proof {
            reveal_strlit("/");
        }
        assert(s@ =~= seq!['/']);
        s
    } else {
        path
    };
    let (groups, hosts) = count_descendants(app, node_id);
    let mut r: Vec<(String, String)> = Vec::new();
    r.push((owned("Path"), shown));
    r.push((owned("Folders"), crate::text::decimal_string(groups as u64)));
    r.push((owned("Hosts"), crate::text::decimal_string(hosts as u64)));
    assert(pair_views(r@) =~= group_field_views(app.nv(), node_id));
    r
}

/// The fields shown for a host.
pub open spec fn host_field_views(h: crate::ssh_config::HostView) -> Seq<(Seq<char>, Seq<char>)> {
    seq![
        ("Host"@, h.alias),
        ("HostName"@, or_not_set(h.resolved.host_name)),
        ("User"@, or_not_set(h.resolved.user)),
        ("Port"@, match h.resolved.port {
            Some(p) => decimal(p as nat),
            None => not_set(),
        }),
        ("ProxyJump"@, joined_or_not_set(h.resolved.proxy_jump, ", "@)),
        ("IdentityFile"@, joined_or_not_set(h.resolved.identity_files, ", "@)),
        ("Group"@, if h.group_path.len() == 0 {
            seq!['/']
        } else {
            join(h.group_path, seq!['/'])
        }),
        ("Source"@, h.source + seq![':'] + decimal(h.line as nat)),
    ]
}

pub fn host_fields(host: &HostEntry) -> (r: Vec<(String, String)>)
    ensures
        pair_views(r@) == host_field_views(host@),
{
    let port = match host.resolved.port {
        Some(p) => crate::text::decimal_string(p as u64),
        None => owned("(not set)"),
    };
    let group = if host.group_path.len() == 0 {
        let s = owned("/");
        proof {
            reveal_strlit("/");
        }
        assert(s@ =~= seq!['/']);
        s
    } else {
        join_strings(&host.group_path, "/")
    };
    proof {
        reveal_strlit("/");
    }
    assert("/"@ =~= seq!['/']);
    let mut source = chars_of(host.source.as_str());
    source.push(':');
    append(&mut source, &decimal_chars(host.line as u64));
    let mut r: Vec<(String, String)> = Vec::new();
    r.push((owned("Host"), host.alias.clone()));
    r.push((owned("HostName"), value_or_not_set(&host.resolved.host_name)));
    r.push((owned("User"), value_or_not_set(&host.resolved.user)));
    r.push((owned("Port"), port));
    r.push((owned("ProxyJump"), empty_or_joined(&host.resolved.proxy_jump, ", ")));
    r.push((owned("IdentityFile"), empty_or_joined(&host.resolved.identity_files, ", ")));
    r.push((owned("Group"), group));
    r.push((owned("Source"), string_from(&source)));
    let ghost h = host@;
    assert(source@ =~= h.source + seq![':'] + decimal(h.line as nat));
    assert(pair_views(r@)[3] == host_field_views(h)[3]);
    assert(pair_views(r@)[6] == host_field_views(h)[6]);
    assert(pair_views(r@)[7] == host_field_views(h)[7]);
    assert(pair_views(r@) =~= host_field_views(h));
    r
}

/// The options of a host's own block: each keyword with its values
/// joined by spaces.
pub fn option_fields(host: &HostEntry) -> (r: Vec<(String, String)>)
    ensures
        pair_views(r@) == host@.options.map_values(
            |d: crate::host_options::DirectiveView| (d.keyword, join(d.values, seq![' '])),
        ),
{
    let mut r: Vec<(String, String)> = Vec::new();
    let mut i: usize = 0;
    proof {
        reveal_strlit(" ");
    }
    assert(" "@ =~= seq![' ']);
    while i < host.options.len()
        invariant
            i <= host.options.len(),
            " "@ == seq![' '],
            pair_views(r@) == host@.options.take(i as int).map_values(
                |d: crate::host_options::DirectiveView| (d.keyword, join(d.values, seq![' '])),
            ),
        decreases host.options.len() - i,
    {
        let key = host.options[i].0.clone();
        let values = join_strings(&host.options[i].1, " ");
        let ghost before = pair_views(r@);
        assert(host@.options[i as int] == crate::host_options::DirectiveView {
            keyword: host.options@[i as int].0@,
            values: string_views(host.options@[i as int].1@),
        });
        assert(host@.options.take(i + 1) =~= host@.options.take(i as int).push(host@.options[i as int]));
        r.push((key, values));
        assert(pair_views(r@) =~= before.push((host@.options[i as int].keyword, join(host@.options[i as int].values, seq![' ']))));
        assert(pair_views(r@) =~= host@.options.take(i + 1).map_values(
            |d: crate::host_options::DirectiveView| (d.keyword, join(d.values, seq![' '])),
        ));
        i = i + 1;
    }
    assert(host@.options.take(i as int) =~= host@.options);
    r
}

/// The search as the header shows it.
pub open spec fn search_label_of(search: Seq<char>) -> Seq<char> {
    if search.len() == 0 {
        "Search: /"@
    } else {
        "Search: "@ + search
    }
}

pub fn search_label(search: &str) -> (r: String)
    ensures
        r@ == search_label_of(search@),
{
    if search.is_empty() {
        owned("Search: /")
    } else {
        let mut text = chars_of("Search: ");
        append(&mut text, &chars_of(search));
        string_from(&text)
    }
}

/// The host count as the header shows it.
pub fn hosts_label(count: usize) -> (r: String)
    ensures
        r@ == decimal(count as nat) + " hosts"@,
{
    let mut text = decimal_chars(count as u64);
    append(&mut text, &chars_of(" hosts"));
    string_from(&text)
}

pub open spec fn help_of(mode: InputMode) -> Seq<char> {
    match mode {
        InputMode::Normal => "q quit  / search  arrows/jk move  h/l fold  Enter connect"@,
        InputMode::Search => "Esc clear  Enter keep search  Backspace edit"@,
    }
}

/// The footer: the status, if any, and the keys of the mode.
pub open spec fn footer_of(status: Seq<char>, mode: InputMode) -> Seq<char> {
    if status.len() == 0 {
        help_of(mode)
    } else {
        status + "  |  "@ + help_of(mode)
    }
}

pub fn footer_text(status: &str, mode: InputMode) -> (r: String)
    ensures
        r@ == footer_of(status@, mode),
{
    let help = match mode {
        InputMode::Normal => chars_of("q quit  / search  arrows/jk move  h/l fold  Enter connect"),
        InputMode::Search => chars_of("Esc clear  Enter keep search  Backspace edit"),
    };
    if status.is_empty() {
        string_from(&help)
    } else {
        let mut text = chars_of(status);
        append(&mut text, &chars_of("  |  "));
        append(&mut text, &help);
        string_from(&text)
    }
}

} // verus!
