//! The scan of configuration files, one line at a time.
//!
//! A scan holds what has been read so far: the hosts, the groups (ordered
//! by path, one entry per path), every `Host` block with its directives, the
//! files already entered, and for each file that is being read its own
//! state: the hosts of the current block, the active group and the metadata
//! waiting for the next `Host` line. Reading a file is `enter_file`, then
//! `scan_line` for each line, then `leave_file`; an `Include` line hands its
//! patterns back, and the files they name are read in place, each with a
//! state of its own.
use vstd::prelude::*;

use crate::directive::{
    is_visible_host_alias,
    is_visible_host_alias_chars,
    parse_directive,
    parse_directive_chars,
    parse_metadata,
    parse_metadata_chars,
    split_group_path,
    split_group_path_chars,
    split_metadata_value,
    split_metadata_value_chars,
};
use crate::host_options::{
    Directive,
    DirectiveView,
    HostBlock,
    HostBlockView,
    block_views,
    clone_nested,
    directive_views,
};
use crate::host_options::{effective_directives, effective_directives_of, resolve, resolve_host};
use crate::ssh_config::{
    GroupEntry,
    GroupView,
    HostEntry,
    HostView,
    SshConfig,
    SshConfigView,
    group_views,
    host_views,
    opt_chars,
    opt_path,
    opt_view,
    option_entry_views,
};
use crate::text::{
    chars_eq,
    chars_of,
    compare_chars,
    str_eq,
    string_from,
    eq_ignore_ascii_case,
    eq_ignore_case,
    seq_lt,
    string_views,
    trim,
    trim_chars,
    views,
};

verus! {

// ---------------------------------------------------------------------------
// Order of group paths
// ---------------------------------------------------------------------------

/// Lexicographic order of group paths (`Vec<String>` order).
pub open spec fn path_lt(a: Seq<Seq<char>>, b: Seq<Seq<char>>) -> bool
    decreases a.len(),
{
    if a.len() == 0 {
        b.len() > 0
    } else if b.len() == 0 {
        false
    } else if a[0] != b[0] {
        seq_lt(a[0], b[0])
    } else {
        path_lt(a.drop_first(), b.drop_first())
    }
}

pub proof fn lemma_path_lt_common_prefix(a: Seq<Seq<char>>, b: Seq<Seq<char>>, i: int)
    requires
        0 <= i <= a.len(),
        i <= b.len(),
        a.take(i) == b.take(i),
    ensures
        path_lt(a, b) == path_lt(a.skip(i), b.skip(i)),
    decreases i,
{
    if i > 0 {
        assert(a[0] == a.take(i)[0]);
        assert(b[0] == b.take(i)[0]);
        assert(a.drop_first().take(i - 1) =~= a.take(i).drop_first());
        assert(b.drop_first().take(i - 1) =~= b.take(i).drop_first());
        lemma_path_lt_common_prefix(a.drop_first(), b.drop_first(), i - 1);
        assert(a.drop_first().skip(i - 1) =~= a.skip(i));
        assert(b.drop_first().skip(i - 1) =~= b.skip(i));
    } else {
        assert(a.skip(0) =~= a);
        assert(b.skip(0) =~= b);
    }
}

pub proof fn lemma_path_lt_total(a: Seq<Seq<char>>, b: Seq<Seq<char>>)
    ensures
        a == b || path_lt(a, b) || path_lt(b, a),
        !(path_lt(a, b) && path_lt(b, a)),
        !path_lt(a, a),
    decreases a.len(),
{
    if a.len() > 0 {
        lemma_path_lt_total(a.drop_first(), a.drop_first());
    }
    if a.len() > 0 && b.len() > 0 {
        crate::text::lemma_seq_lt_total(a[0], b[0]);
    }
    if a.len() > 0 && b.len() > 0 && a[0] == b[0] {
        lemma_path_lt_total(a.drop_first(), b.drop_first());
        if a.drop_first() == b.drop_first() {
            assert forall|k: int| 0 <= k < a.len() implies a[k] == b[k] by {
                if k > 0 {
                    assert(a[k] == a.drop_first()[k - 1]);
                    assert(b[k] == b.drop_first()[k - 1]);
                }
            }
            assert(a =~= b);
        }
    } else if a.len() == 0 && b.len() == 0 {
        assert(a =~= b);
    }
}

pub proof fn lemma_path_lt_transitive(a: Seq<Seq<char>>, b: Seq<Seq<char>>, c: Seq<Seq<char>>)
    requires
        path_lt(a, b),
        path_lt(b, c),
    ensures
        path_lt(a, c),
    decreases a.len(),
{
    if a.len() > 0 && b.len() > 0 && c.len() > 0 {
        if a[0] == b[0] && b[0] == c[0] {
            lemma_path_lt_transitive(a.drop_first(), b.drop_first(), c.drop_first());
        } else if a[0] == b[0] {
        } else if b[0] == c[0] {
        } else {
            crate::text::lemma_seq_lt_transitive(a[0], b[0], c[0]);
            crate::text::lemma_seq_lt_total(a[0], b[0]);
        }
    }
}

/// Three-way comparison of group paths: -1, 0 or 1.
pub fn compare_paths(a: &Vec<Vec<char>>, b: &Vec<Vec<char>>) -> (r: i8)
    ensures
        r == -1 <==> path_lt(views(a@), views(b@)),
        r == 0 <==> views(a@) == views(b@),
        r == 1 <==> path_lt(views(b@), views(a@)),
        -1 <= r <= 1,
{
    let ghost va = views(a@);
    let ghost vb = views(b@);
    let mut i: usize = 0;
    while i < a.len() && i < b.len()
        invariant
            i <= a.len(),
            i <= b.len(),
            va == views(a@),
            vb == views(b@),
            va.take(i as int) == vb.take(i as int),
        decreases a.len() - i,
    {
        let c = compare_chars(&a[i], &b[i]);
        if c != 0 {
            proof {
                lemma_path_lt_common_prefix(va, vb, i as int);
                lemma_path_lt_common_prefix(vb, va, i as int);
                assert(va.skip(i as int)[0] == va[i as int]);
                assert(vb.skip(i as int)[0] == vb[i as int]);
                lemma_path_lt_total(va, vb);
            }
            return c;
        }
        assert(va.take(i + 1) =~= va.take(i as int).push(va[i as int]));
        assert(vb.take(i + 1) =~= vb.take(i as int).push(vb[i as int]));
        i = i + 1;
    }
    proof {
        lemma_path_lt_common_prefix(va, vb, i as int);
        lemma_path_lt_common_prefix(vb, va, i as int);
        lemma_path_lt_total(va, vb);
    }
    if a.len() == b.len() {
        assert(va =~= va.take(i as int));
        assert(vb =~= vb.take(i as int));
        0
    } else if i == a.len() {
        assert(va.skip(i as int).len() == 0);
        -1
    } else {
        assert(vb.skip(i as int).len() == 0);
        1
    }
}

// ---------------------------------------------------------------------------
// Scan state
// ---------------------------------------------------------------------------

/// A host as the scan records it.
pub struct ScannedHost {
    pub(crate) alias: Vec<char>,
    pub(crate) description: Option<Vec<char>>,
    pub(crate) group_path: Vec<Vec<char>>,
    pub(crate) source: Vec<char>,
    pub(crate) line: usize,
    pub(crate) options: Vec<Directive>,
}

pub struct ScannedView {
    pub alias: Seq<char>,
    pub description: Option<Seq<char>>,
    pub group_path: Seq<Seq<char>>,
    pub source: Seq<char>,
    pub line: usize,
    pub options: Seq<DirectiveView>,
}

impl View for ScannedHost {
    type V = ScannedView;

    closed spec fn view(&self) -> ScannedView {
        ScannedView {
            alias: self.alias@,
            description: opt_chars(self.description),
            group_path: views(self.group_path@),
            source: self.source@,
            line: self.line,
            options: directive_views(self.options@),
        }
    }
}

pub open spec fn scanned_views(h: Seq<ScannedHost>) -> Seq<ScannedView> {
    h.map_values(|x: ScannedHost| x@)
}

/// A group as the scan records it.
pub struct ScanGroup {
    pub(crate) path: Vec<Vec<char>>,
    pub(crate) description: Option<Vec<char>>,
    pub(crate) expanded: bool,
    pub(crate) source: Vec<char>,
    pub(crate) line: usize,
}

impl View for ScanGroup {
    type V = GroupView;

    closed spec fn view(&self) -> GroupView {
        GroupView {
            path: views(self.path@),
            description: opt_chars(self.description),
            expanded_by_default: self.expanded,
            source: self.source@,
            line: self.line,
        }
    }
}

pub open spec fn scan_group_views(g: Seq<ScanGroup>) -> Seq<GroupView> {
    g.map_values(|x: ScanGroup| x@)
}

/// The state of one file that is being read.
pub struct FileScan {
    pub(crate) path: Vec<char>,
    pub(crate) line: usize,
    pub(crate) current_hosts: Vec<usize>,
    pub(crate) current_block: Option<usize>,
    pub(crate) active_group: Option<Vec<Vec<char>>>,
    pub(crate) pending_description: Option<Vec<char>>,
    pub(crate) pending_hidden: bool,
    pub(crate) describe_group: bool,
}

pub struct FileView {
    pub path: Seq<char>,
    /// Number of the last line read.
    pub line: usize,
    /// The hosts named by the block being read.
    pub current_hosts: Seq<usize>,
    /// The block being read.
    pub current_block: Option<usize>,
    /// The group of the hosts that follow.
    pub active_group: Option<Seq<Seq<char>>>,
    /// Description for the next `Host` line.
    pub pending_description: Option<Seq<char>>,
    /// Whether the next `Host` line is hidden.
    pub pending_hidden: bool,
    /// Whether the next description describes the active group.
    pub describe_group: bool,
}

impl View for FileScan {
    type V = FileView;

    closed spec fn view(&self) -> FileView {
        FileView {
            path: self.path@,
            line: self.line,
            current_hosts: self.current_hosts@,
            current_block: self.current_block,
            active_group: opt_path(self.active_group),
            pending_description: opt_chars(self.pending_description),
            pending_hidden: self.pending_hidden,
            describe_group: self.describe_group,
        }
    }
}

pub open spec fn file_views(f: Seq<FileScan>) -> Seq<FileView> {
    f.map_values(|x: FileScan| x@)
}

/// What has been read of a configuration.
pub struct ConfigScan {
    pub(crate) hosts: Vec<ScannedHost>,
    pub(crate) groups: Vec<ScanGroup>,
    pub(crate) blocks: Vec<HostBlock>,
    pub(crate) visited: Vec<Vec<char>>,
    pub(crate) files: Vec<FileScan>,
}

pub struct ScanView {
    pub hosts: Seq<ScannedView>,
    pub groups: Seq<GroupView>,
    pub blocks: Seq<HostBlockView>,
    pub visited: Seq<Seq<char>>,
    pub files: Seq<FileView>,
}

impl View for ConfigScan {
    type V = ScanView;

    closed spec fn view(&self) -> ScanView {
        ScanView {
            hosts: scanned_views(self.hosts@),
            groups: scan_group_views(self.groups@),
            blocks: block_views(self.blocks@),
            visited: views(self.visited@),
            files: file_views(self.files@),
        }
    }
}

// ---------------------------------------------------------------------------
// What one line does
// ---------------------------------------------------------------------------

pub open spec fn top(s: ScanView) -> FileView {
    s.files.last()
}

pub open spec fn with_top(s: ScanView, f: FileView) -> ScanView {
    ScanView { files: s.files.update(s.files.len() - 1, f), ..s }
}

/// A fresh state for a file that is entered.
pub open spec fn fresh_file(path: Seq<char>) -> FileView {
    FileView {
        path,
        line: 0,
        current_hosts: Seq::empty(),
        current_block: None,
        active_group: None,
        pending_description: None,
        pending_hidden: false,
        describe_group: false,
    }
}

/// The current block ends and the pending host metadata is dropped.
pub open spec fn end_block(f: FileView) -> FileView {
    FileView {
        current_hosts: Seq::empty(),
        current_block: None,
        pending_description: None,
        pending_hidden: false,
        ..f
    }
}

// Groups, ordered by path ------------------------------------------------

pub open spec fn groups_below(gs: Seq<GroupView>, p: Seq<Seq<char>>) -> Seq<GroupView>
    decreases gs.len(),
{
    if gs.len() == 0 {
        Seq::empty()
    } else {
        let rest = groups_below(gs.drop_last(), p);
        if path_lt(gs.last().path, p) {
            rest.push(gs.last())
        } else {
            rest
        }
    }
}

pub open spec fn groups_above(gs: Seq<GroupView>, p: Seq<Seq<char>>) -> Seq<GroupView>
    decreases gs.len(),
{
    if gs.len() == 0 {
        Seq::empty()
    } else {
        let rest = groups_above(gs.drop_last(), p);
        if path_lt(p, gs.last().path) {
            rest.push(gs.last())
        } else {
            rest
        }
    }
}

/// Puts `g` in its place by path, replacing an entry of the same path.
pub open spec fn insert_group(gs: Seq<GroupView>, g: GroupView) -> Seq<GroupView> {
    groups_below(gs, g.path).push(g) + groups_above(gs, g.path)
}

/// Marks the group of path `p` expanded.
pub open spec fn mark_expanded(gs: Seq<GroupView>, p: Seq<Seq<char>>) -> Seq<GroupView> {
    Seq::new(
        gs.len(),
        |i: int|
            if gs[i].path == p {
                GroupView { expanded_by_default: true, ..gs[i] }
            } else {
                gs[i]
            },
    )
}

/// Gives the group of path `p` the description `d`.
pub open spec fn describe(gs: Seq<GroupView>, p: Seq<Seq<char>>, d: Seq<char>) -> Seq<GroupView> {
    Seq::new(
        gs.len(),
        |i: int|
            if gs[i].path == p {
                GroupView { description: Some(d), ..gs[i] }
            } else {
                gs[i]
            },
    )
}

// Options of a host, ordered by keyword -----------------------------------

pub open spec fn options_below(os: Seq<DirectiveView>, k: Seq<char>) -> Seq<DirectiveView>
    decreases os.len(),
{
    if os.len() == 0 {
        Seq::empty()
    } else {
        let rest = options_below(os.drop_last(), k);
        if seq_lt(os.last().keyword, k) {
            rest.push(os.last())
        } else {
            rest
        }
    }
}

pub open spec fn options_above(os: Seq<DirectiveView>, k: Seq<char>) -> Seq<DirectiveView>
    decreases os.len(),
{
    if os.len() == 0 {
        Seq::empty()
    } else {
        let rest = options_above(os.drop_last(), k);
        if seq_lt(k, os.last().keyword) {
            rest.push(os.last())
        } else {
            rest
        }
    }
}

/// The values recorded under exactly `k`.
pub open spec fn values_of(os: Seq<DirectiveView>, k: Seq<char>) -> Seq<Seq<char>>
    decreases os.len(),
{
    if os.len() == 0 {
        Seq::empty()
    } else if os.last().keyword == k {
        os.last().values
    } else {
        values_of(os.drop_last(), k)
    }
}

/// Adds `vals` under keyword `k` (`entry(k).or_default().extend(vals)`).
pub open spec fn add_option(os: Seq<DirectiveView>, k: Seq<char>, vals: Seq<Seq<char>>) -> Seq<
    DirectiveView,
> {
    options_below(os, k).push(DirectiveView { keyword: k, values: values_of(os, k) + vals })
        + options_above(os, k)
}

/// Adds the directive to each listed host, in turn.
pub open spec fn add_to_hosts(
    hosts: Seq<ScannedView>,
    idxs: Seq<usize>,
    k: Seq<char>,
    vals: Seq<Seq<char>>,
) -> Seq<ScannedView>
    decreases idxs.len(),
{
    if idxs.len() == 0 {
        hosts
    } else {
        let h = add_to_hosts(hosts, idxs.drop_last(), k, vals);
        let i = idxs.last() as int;
        if i < h.len() {
            h.update(i, ScannedView { options: add_option(h[i].options, k, vals), ..h[i] })
        } else {
            h
        }
    }
}

// Lines -------------------------------------------------------------------

pub open spec fn visible_aliases(values: Seq<Seq<char>>) -> Seq<Seq<char>>
    decreases values.len(),
{
    if values.len() == 0 {
        Seq::empty()
    } else {
        let rest = visible_aliases(values.drop_last());
        if is_visible_host_alias(values.last()) {
            rest.push(values.last())
        } else {
            rest
        }
    }
}

/// The host that a `Host` line of the file in state `f` names `a`.
pub open spec fn scanned_of(f: FileView, a: Seq<char>) -> ScannedView {
    ScannedView {
        alias: a,
        description: f.pending_description,
        group_path: match f.active_group {
            Some(p) => p,
            None => Seq::empty(),
        },
        source: f.path,
        line: f.line,
        options: Seq::empty(),
    }
}

/// A `Host` line: a new block; unless hidden, one host for each pattern
/// that names a concrete host, in the active group and with the pending
/// description.
pub open spec fn host_step(s: ScanView, values: Seq<Seq<char>>) -> ScanView {
    let f = top(s);
    let blocks = s.blocks.push(HostBlockView { patterns: values, directives: Seq::empty() });
    let base = FileView {
        current_hosts: Seq::empty(),
        current_block: Some(s.blocks.len() as usize),
        pending_description: None,
        pending_hidden: false,
        describe_group: false,
        ..f
    };
    if f.pending_hidden {
        with_top(ScanView { blocks, ..s }, base)
    } else {
        let aliases = visible_aliases(values);
        let added = aliases.map_values(|a: Seq<char>| scanned_of(f, a));
        with_top(
            ScanView { hosts: s.hosts + added, blocks, ..s },
            FileView {
                current_hosts: Seq::new(aliases.len(), |k: int| (s.hosts.len() + k) as usize),
                ..base
            },
        )
    }
}

/// Any other directive: recorded in the current block and added to the
/// options of each host of that block.
pub open spec fn option_step(s: ScanView, k: Seq<char>, vals: Seq<Seq<char>>) -> ScanView {
    let f = top(s);
    let blocks = match f.current_block {
        Some(b) => if (b as int) < s.blocks.len() {
            s.blocks.update(
                b as int,
                HostBlockView {
                    directives: s.blocks[b as int].directives.push(
                        DirectiveView { keyword: k, values: vals },
                    ),
                    ..s.blocks[b as int]
                },
            )
        } else {
            s.blocks
        },
        None => s.blocks,
    };
    ScanView { blocks, hosts: add_to_hosts(s.hosts, f.current_hosts, k, vals), ..s }
}

pub open spec fn is_description_key(key: Seq<char>) -> bool {
    ||| key == seq!['d', 'e', 's', 'c', 'r', 'i', 'p', 't', 'i', 'o', 'n']
    ||| key == seq!['d', 'e', 's', 'c']
    ||| key == seq![
        'h',
        'o',
        's',
        't',
        '-',
        'd',
        'e',
        's',
        'c',
        'r',
        'i',
        'p',
        't',
        'i',
        'o',
        'n',
    ]
    ||| key == seq![
        'h',
        'o',
        's',
        't',
        '_',
        'd',
        'e',
        's',
        'c',
        'r',
        'i',
        'p',
        't',
        'i',
        'o',
        'n',
    ]
}

/// A metadata comment.
///
/// * `@group A/B | description` (or `@folder`): the group becomes active for
///   the hosts that follow and is recorded; with no description given, the
///   next `@description` describes it.
/// * `@expanded`: the active group opens on startup.
/// * `@hidden`: the next `Host` block is not shown.
/// * `@description text` (`@desc`, `@host-description`,
///   `@host_description`): describes the group just declared, or else the
///   next host.
pub open spec fn comment_step(s: ScanView, comment: Seq<char>) -> ScanView {
    let f = top(s);
    match parse_metadata(comment) {
        None => s,
        Some((key, value)) => {
            if key == seq!['g', 'r', 'o', 'u', 'p'] || key == seq!['f', 'o', 'l', 'd', 'e', 'r'] {
                let (p, d) = split_metadata_value(value);
                let path = split_group_path(p);
                if path.len() == 0 {
                    s
                } else {
                    with_top(
                        ScanView {
                            groups: insert_group(
                                s.groups,
                                GroupView {
                                    path,
                                    description: d,
                                    expanded_by_default: false,
                                    source: f.path,
                                    line: f.line,
                                },
                            ),
                            ..s
                        },
                        FileView { active_group: Some(path), describe_group: d is None, ..f },
                    )
                }
            } else if key == seq!['e', 'x', 'p', 'a', 'n', 'd', 'e', 'd'] {
                match f.active_group {
                    Some(p) => ScanView { groups: mark_expanded(s.groups, p), ..s },
                    None => s,
                }
            } else if key == seq!['h', 'i', 'd', 'd', 'e', 'n'] {
                with_top(s, FileView { pending_hidden: true, ..f })
            } else if is_description_key(key) && trim(value).len() > 0 {
                if f.describe_group && f.active_group is Some {
                    with_top(
                        ScanView {
                            groups: describe(s.groups, f.active_group->0, trim(value)),
                            ..s
                        },
                        FileView { describe_group: false, ..f },
                    )
                } else {
                    with_top(s, FileView { pending_description: Some(trim(value)), ..f })
                }
            } else {
                s
            }
        },
    }
}

pub open spec fn keyword_is(k: Seq<char>, word: Seq<char>) -> bool {
    eq_ignore_case(k, word)
}

/// What one line of the file being read does, and the include patterns
/// that it hands back.
pub open spec fn scan_line_spec(s: ScanView, raw: Seq<char>) -> (ScanView, Option<Seq<Seq<char>>>) {
    let f0 = top(s);
    let f = FileView {
        line: if f0.line < usize::MAX {
            (f0.line + 1) as usize
        } else {
            f0.line
        },
        ..f0
    };
    let s1 = with_top(s, f);
    let trimmed = trim(raw);
    if trimmed.len() > 0 && trimmed[0] == '#' {
        (comment_step(s1, trim(trimmed.drop_first())), None)
    } else {
        match parse_directive(trimmed) {
            None => if trimmed.len() > 0 {
                (with_top(s1, end_block(f)), None)
            } else {
                (s1, None)
            },
            Some((k, values)) => {
                if keyword_is(k, seq!['i', 'n', 'c', 'l', 'u', 'd', 'e']) {
                    (with_top(s1, end_block(f)), Some(values))
                } else if keyword_is(k, seq!['h', 'o', 's', 't']) {
                    (host_step(s1, values), None)
                } else if keyword_is(k, seq!['m', 'a', 't', 'c', 'h']) {
                    (with_top(s1, FileView { current_hosts: Seq::empty(), current_block: None, ..f }), None)
                } else {
                    (option_step(s1, k, values), None)
                }
            },
        }
    }
}

// ---------------------------------------------------------------------------
// Executable scan
// ---------------------------------------------------------------------------

fn clone_chars(v: &Vec<char>) -> (r: Vec<char>)
    ensures
        r@ == v@,
{
    let r = v.clone();
    assert(r@ =~= v@);
    r
}

fn clone_opt_chars(v: &Option<Vec<char>>) -> (r: Option<Vec<char>>)
    ensures
        opt_chars(r) == opt_chars(*v),
{
    match v {
        Some(c) => Some(clone_chars(c)),
        None => None,
    }
}

impl ScanGroup {
    fn duplicate(&self) -> (r: ScanGroup)
        ensures
            r@ == self@,
    {
        ScanGroup {
            path: clone_nested(&self.path),
            description: clone_opt_chars(&self.description),
            expanded: self.expanded,
            source: clone_chars(&self.source),
            line: self.line,
        }
    }
}

fn insert_group_exec(groups: &mut Vec<ScanGroup>, g: ScanGroup)
    ensures
        scan_group_views(final(groups)@) == insert_group(scan_group_views(old(groups)@), g@),
{
    let ghost gs = scan_group_views(groups@);
    let mut below: Vec<ScanGroup> = Vec::new();
    let mut above: Vec<ScanGroup> = Vec::new();
    let mut i: usize = 0;
    while i < groups.len()
        invariant
            i <= groups.len(),
            gs == scan_group_views(groups@),
            groups@ == old(groups)@,
            scan_group_views(below@) == groups_below(gs.take(i as int), g@.path),
            scan_group_views(above@) == groups_above(gs.take(i as int), g@.path),
        decreases groups.len() - i,
    {
        assert(gs.take(i + 1).drop_last() =~= gs.take(i as int));
        assert(gs.take(i + 1).last() == groups@[i as int]@);
        let c = compare_paths(&groups[i].path, &g.path);
        proof {
            lemma_path_lt_total(groups@[i as int]@.path, g@.path);
        }
        if c == -1 {
            let d = groups[i].duplicate();
            let ghost before = below@;
            below.push(d);
            assert(below@ =~= before.push(d));
            assert(scan_group_views(below@) =~= scan_group_views(before).push(d@));
        } else if c == 1 {
            let d = groups[i].duplicate();
            let ghost before = above@;
            above.push(d);
            assert(above@ =~= before.push(d));
            assert(scan_group_views(above@) =~= scan_group_views(before).push(d@));
        }
        i = i + 1;
    }
    assert(gs.take(i as int) =~= gs);
    let ghost gv = g@;
    let ghost bv = scan_group_views(below@);
    below.push(g);
    assert(scan_group_views(below@) =~= bv.push(gv));
    let ghost b2 = below@;
    below.append(&mut above);
    assert(scan_group_views(below@) =~= scan_group_views(b2) + groups_above(gs, gv.path));
    *groups = below;
}

fn mark_expanded_exec(groups: &mut Vec<ScanGroup>, p: &Vec<Vec<char>>)
    ensures
        scan_group_views(final(groups)@) == mark_expanded(scan_group_views(old(groups)@), views(p@)),
{
    let ghost gs = scan_group_views(groups@);
    let mut i: usize = 0;
    while i < groups.len()
        invariant
            i <= groups.len(),
            groups.len() == gs.len(),
            gs == scan_group_views(old(groups)@),
            forall|k: int|
                0 <= k < groups.len() ==> #[trigger] scan_group_views(groups@)[k] == if k < i {
                    mark_expanded(gs, views(p@))[k]
                } else {
                    gs[k]
                },
        decreases groups.len() - i,
    {
        let ghost before = groups@;
        if compare_paths(&groups[i].path, p) == 0 {
            groups[i].expanded = true;
            assert(groups@[i as int].path == before[i as int].path);
            assert(groups@[i as int].description == before[i as int].description);
            assert(groups@[i as int].source == before[i as int].source);
            assert(groups@[i as int].line == before[i as int].line);
            assert(scan_group_views(before)[i as int] == gs[i as int]);
            assert(groups@ =~= before.update(i as int, groups@[i as int]));
            assert(scan_group_views(groups@)[i as int] == mark_expanded(gs, views(p@))[i as int]);
            assert forall|k: int| 0 <= k < groups.len() && k != i implies #[trigger] scan_group_views(
                groups@,
            )[k] == scan_group_views(before)[k] by {
                assert(groups@[k] == before[k]);
            }
        } else {
            assert(scan_group_views(groups@)[i as int] == mark_expanded(gs, views(p@))[i as int]);
        }
        i = i + 1;
    }
    assert(scan_group_views(groups@) =~= mark_expanded(gs, views(p@)));
}

fn describe_exec(groups: &mut Vec<ScanGroup>, p: &Vec<Vec<char>>, d: &Vec<char>)
    ensures
        scan_group_views(final(groups)@) == describe(scan_group_views(old(groups)@), views(p@), d@),
{
    let ghost gs = scan_group_views(groups@);
    let mut i: usize = 0;
    while i < groups.len()
        invariant
            i <= groups.len(),
            groups.len() == gs.len(),
            gs == scan_group_views(old(groups)@),
            forall|k: int|
                0 <= k < groups.len() ==> #[trigger] scan_group_views(groups@)[k] == if k < i {
                    describe(gs, views(p@), d@)[k]
                } else {
                    gs[k]
                },
        decreases groups.len() - i,
    {
        let ghost before = groups@;
        if compare_paths(&groups[i].path, p) == 0 {
            groups[i].description = Some(clone_chars(d));
            assert(groups@[i as int].path == before[i as int].path);
            assert(groups@[i as int].expanded == before[i as int].expanded);
            assert(groups@[i as int].source == before[i as int].source);
            assert(groups@[i as int].line == before[i as int].line);
            assert(scan_group_views(before)[i as int] == gs[i as int]);
            assert(groups@ =~= before.update(i as int, groups@[i as int]));
            assert(scan_group_views(groups@)[i as int] == describe(gs, views(p@), d@)[i as int]);
            assert forall|k: int| 0 <= k < groups.len() && k != i implies #[trigger] scan_group_views(
                groups@,
            )[k] == scan_group_views(before)[k] by {
                assert(groups@[k] == before[k]);
            }
        } else {
            assert(scan_group_views(groups@)[i as int] == describe(gs, views(p@), d@)[i as int]);
        }
        i = i + 1;
    }
    assert(scan_group_views(groups@) =~= describe(gs, views(p@), d@));
}

fn add_option_exec(os: &Vec<Directive>, k: &Vec<char>, vals: &Vec<Vec<char>>) -> (r: Vec<Directive>)
    ensures
        directive_views(r@) == add_option(directive_views(os@), k@, views(vals@)),
{
    let ghost ov = directive_views(os@);
    let mut below: Vec<Directive> = Vec::new();
    let mut above: Vec<Directive> = Vec::new();
    let mut existing: Vec<Vec<char>> = Vec::new();
    let mut i: usize = 0;
    while i < os.len()
        invariant
            i <= os.len(),
            ov == directive_views(os@),
            directive_views(below@) == options_below(ov.take(i as int), k@),
            directive_views(above@) == options_above(ov.take(i as int), k@),
            views(existing@) == values_of(ov.take(i as int), k@),
        decreases os.len() - i,
    {
        assert(ov.take(i + 1).drop_last() =~= ov.take(i as int));
        assert(ov.take(i + 1).last() == os@[i as int]@);
        let c = compare_chars(&os[i].keyword, k);
        if c == -1 {
            let d = os[i].duplicate();
            let ghost before = below@;
            below.push(d);
            assert(below@ =~= before.push(d));
            assert(directive_views(below@) =~= directive_views(before).push(d@));
        } else if c == 1 {
            let d = os[i].duplicate();
            let ghost before = above@;
            above.push(d);
            assert(above@ =~= before.push(d));
            assert(directive_views(above@) =~= directive_views(before).push(d@));
        } else {
            existing = clone_nested(&os[i].values);
        }
        proof {
            crate::text::lemma_seq_lt_total(os@[i as int]@.keyword, k@);
        }
        i = i + 1;
    }
    assert(ov.take(i as int) =~= ov);
    let mut values = existing;
    let mut j: usize = 0;
    let ghost ev = views(values@);
    while j < vals.len()
        invariant
            j <= vals.len(),
            views(values@) == ev + views(vals@).take(j as int),
        decreases vals.len() - j,
    {
        let c = clone_chars(&vals[j]);
        let ghost before = values@;
        values.push(c);
        assert(values@ =~= before.push(c));
        assert(views(values@) =~= views(before).push(c@));
        assert(views(vals@).take(j + 1) =~= views(vals@).take(j as int).push(vals@[j as int]@));
        j = j + 1;
    }
    assert(views(vals@).take(j as int) =~= views(vals@));
    let entry = Directive { keyword: clone_chars(k), values };
    let ghost bv = directive_views(below@);
    below.push(entry);
    assert(directive_views(below@) =~= bv.push(entry@));
    let ghost b2 = below@;
    below.append(&mut above);
    assert(directive_views(below@) =~= directive_views(b2) + options_above(ov, k@));
    below
}

impl ConfigScan {
    /// An empty scan: nothing read, no file entered.
    pub fn new() -> (r: ConfigScan)
        ensures
            r@.hosts.len() == 0,
            r@.groups.len() == 0,
            r@.blocks.len() == 0,
            r@.visited.len() == 0,
            r@.files.len() == 0,
    {
        ConfigScan {
            hosts: Vec::new(),
            groups: Vec::new(),
            blocks: Vec::new(),
            visited: Vec::new(),
            files: Vec::new(),
        }
    }

    /// How many files are being read (the depth of includes plus one).
    pub fn depth(&self) -> (r: usize)
        ensures
            r == self@.files.len(),
    {
        self.files.len()
    }

    /// Starts reading the file `path`, known by its canonical name
    /// `canonical`. A file that was entered before is not read again: the
    /// result is then `false` and nothing changes.
    pub fn enter_file(&mut self, path: &str, canonical: &str) -> (entered: bool)
        ensures
            entered == !old(self)@.visited.contains(canonical@),
            entered ==> final(self)@ == (ScanView {
                visited: old(self)@.visited.push(canonical@),
                files: old(self)@.files.push(fresh_file(path@)),
                ..old(self)@
            }),
            !entered ==> final(self)@ == old(self)@,
    {
        let c = chars_of(canonical);
        let mut i: usize = 0;
        while i < self.visited.len()
            invariant
                i <= self.visited.len(),
                c@ == canonical@,
                forall|k: int| 0 <= k < i ==> self.visited@[k]@ != c@,
            decreases self.visited.len() - i,
        {
            if chars_eq(&self.visited[i], &c) {
                assert(views(self.visited@)[i as int] == canonical@);
                return false;
            }
            i = i + 1;
        }
        assert(!views(self.visited@).contains(canonical@)) by {
            if views(self.visited@).contains(canonical@) {
                let k = choose|k: int|
                    0 <= k < views(self.visited@).len() && views(self.visited@)[k] == canonical@;
                assert(self.visited@[k]@ == c@);
            }
        }
        let ghost old_visited = self.visited@;
        let ghost old_files = self.files@;
        self.visited.push(c);
        assert(views(self.visited@) =~= views(old_visited).push(canonical@));
        let f = FileScan {
            path: chars_of(path),
            line: 0,
            current_hosts: Vec::new(),
            current_block: None,
            active_group: None,
            pending_description: None,
            pending_hidden: false,
            describe_group: false,
        };
        self.files.push(f);
        assert(file_views(self.files@) =~= file_views(old_files).push(fresh_file(path@)));
        true
    }

    /// Stops reading the innermost file.
    pub fn leave_file(&mut self)
        requires
            old(self)@.files.len() > 0,
        ensures
            final(self)@ == (ScanView { files: old(self)@.files.drop_last(), ..old(self)@ }),
    {
        let ghost old_files = self.files@;
        self.files.pop();
        assert(file_views(self.files@) =~= file_views(old_files).drop_last());
    }
}

fn clone_usizes(v: &Vec<usize>) -> (r: Vec<usize>)
    ensures
        r@ == v@,
{
    let r = v.clone();
    assert(r@ =~= v@);
    r
}

impl ConfigScan {
    fn host_step_exec(&mut self, values: &Vec<Vec<char>>)
        requires
            old(self)@.files.len() > 0,
        ensures
            final(self)@ == host_step(old(self)@, views(values@)),
    {
        let ghost s = self@;
        let ghost vs = views(values@);
        let n = self.files.len() - 1;
        let ghost f = top(s);
        assert(f == self.files@[n as int]@);
        let block_index = self.blocks.len();
        let ghost old_blocks = self.blocks@;
        let nb = HostBlock { patterns: clone_nested(values), directives: Vec::new() };
        assert(nb@.directives =~= Seq::<DirectiveView>::empty());
        assert(nb@ == HostBlockView { patterns: vs, directives: Seq::empty() });
        self.blocks.push(nb);
        assert(self.blocks@ =~= old_blocks.push(nb));
        assert(block_views(self.blocks@) =~= block_views(old_blocks).push(nb@));
        let hidden = self.files[n].pending_hidden;
        if !hidden {
            let group: Vec<Vec<char>> = match &self.files[n].active_group {
                Some(p) => clone_nested(p),
                None => Vec::new(),
            };
            let ghost gv = match f.active_group {
                Some(p) => p,
                None => Seq::<Seq<char>>::empty(),
            };
            assert(views(group@) == gv);
            let ghost old_hosts = scanned_views(self.hosts@);
            let ghost blocks_after = self.blocks@;
            let mut cur: Vec<usize> = Vec::new();
            let mut i: usize = 0;
            while i < values.len()
                invariant
                    i <= values.len(),
                    n == self.files.len() - 1,
                    vs == views(values@),
                    self.files@ == old(self).files@,
                    f == self.files@[n as int]@,
                    gv == (match f.active_group {
                        Some(p) => p,
                        None => Seq::<Seq<char>>::empty(),
                    }),
                    views(group@) == gv,
                    self.blocks@ == blocks_after,
                    self.groups@ == old(self).groups@,
                    self.visited@ == old(self).visited@,
                    scanned_views(self.hosts@) == old_hosts + visible_aliases(vs.take(i as int)).map_values(
                        |a: Seq<char>| scanned_of(f, a),
                    ),
                    cur@ == Seq::new(
                        visible_aliases(vs.take(i as int)).len(),
                        |k: int| (old_hosts.len() + k) as usize,
                    ),
                decreases values.len() - i,
            {
                assert(vs.take(i + 1).drop_last() =~= vs.take(i as int));
                assert(vs.take(i + 1).last() == values@[i as int]@);
                if is_visible_host_alias_chars(&values[i]) {
                    let h = ScannedHost {
                        alias: clone_chars(&values[i]),
                        description: clone_opt_chars(&self.files[n].pending_description),
                        group_path: clone_nested(&group),
                        source: clone_chars(&self.files[n].path),
                        line: self.files[n].line,
                        options: Vec::new(),
                    };
                    assert(h@.options =~= Seq::<DirectiveView>::empty());
                    assert(h@ == scanned_of(f, values@[i as int]@));
                    let ghost before = self.hosts@;
                    cur.push(self.hosts.len());
                    self.hosts.push(h);
                    assert(self.hosts@ =~= before.push(h));
                    assert(scanned_views(self.hosts@) =~= scanned_views(before).push(h@));
                    assert(visible_aliases(vs.take(i + 1)).map_values(
                        |a: Seq<char>| scanned_of(f, a),
                    ) =~= visible_aliases(vs.take(i as int)).map_values(
                        |a: Seq<char>| scanned_of(f, a),
                    ).push(scanned_of(f, values@[i as int]@)));
                }
                i = i + 1;
            }
            assert(vs.take(i as int) =~= vs);
            self.files[n].current_hosts = cur;
        } else {
            self.files[n].current_hosts = Vec::new();
        }
        self.files[n].current_block = Some(block_index);
        self.files[n].pending_description = None;
        self.files[n].pending_hidden = false;
        self.files[n].describe_group = false;
        let ghost expected = host_step(s, vs);
        assert(file_views(self.files@) =~= expected.files);
        assert(scanned_views(self.hosts@) =~= expected.hosts);
        assert(block_views(self.blocks@) =~= expected.blocks);
        assert(scan_group_views(self.groups@) =~= expected.groups);
        assert(views(self.visited@) =~= expected.visited);
    }

    fn option_step_exec(&mut self, k: &Vec<char>, vals: &Vec<Vec<char>>)
        requires
            old(self)@.files.len() > 0,
        ensures
            final(self)@ == option_step(old(self)@, k@, views(vals@)),
    {
        let ghost s = self@;
        let n = self.files.len() - 1;
        let ghost f = top(s);
        assert(f == self.files@[n as int]@);
        match self.files[n].current_block {
            Some(b) => {
                if b < self.blocks.len() {
                    let d = Directive { keyword: clone_chars(k), values: clone_nested(vals) };
                    let ghost before = self.blocks@;
                    let ghost bd = self.blocks@[b as int].directives@;
                    self.blocks[b].directives.push(d);
                    assert(directive_views(self.blocks@[b as int].directives@) =~= directive_views(
                        bd,
                    ).push(d@));
                    assert(block_views(self.blocks@) =~= option_step(s, k@, views(vals@)).blocks);
                }
            },
            None => {},
        }
        let idxs = clone_usizes(&self.files[n].current_hosts);
        let ghost h0 = scanned_views(self.hosts@);
        let ghost blocks_after = self.blocks@;
        let mut j: usize = 0;
        while j < idxs.len()
            invariant
                j <= idxs.len(),
                self.blocks@ == blocks_after,
                self.files@ == old(self).files@,
                self.groups@ == old(self).groups@,
                self.visited@ == old(self).visited@,
                idxs@ == f.current_hosts,
                scanned_views(self.hosts@) == add_to_hosts(h0, idxs@.take(j as int), k@, views(vals@)),
            decreases idxs.len() - j,
        {
            assert(idxs@.take(j + 1).drop_last() =~= idxs@.take(j as int));
            let h = idxs[j];
            if h < self.hosts.len() {
                let opts = add_option_exec(&self.hosts[h].options, k, vals);
                let ghost before = self.hosts@;
                self.hosts[h].options = opts;
                assert(scanned_views(self.hosts@) =~= scanned_views(before).update(
                    h as int,
                    ScannedView { options: directive_views(opts@), ..scanned_views(before)[h as int] },
                ));
            }
            j = j + 1;
        }
        assert(idxs@.take(j as int) =~= idxs@);
        let ghost expected = option_step(s, k@, views(vals@));
        assert(file_views(self.files@) =~= expected.files);
        assert(scanned_views(self.hosts@) =~= expected.hosts);
        assert(block_views(self.blocks@) =~= expected.blocks);
        assert(scan_group_views(self.groups@) =~= expected.groups);
        assert(views(self.visited@) =~= expected.visited);
    }
}

impl ConfigScan {
    fn apply_comment_metadata(&mut self, comment: &[char])
        requires
            old(self)@.files.len() > 0,
        ensures
            final(self)@ == comment_step(old(self)@, comment@),
    {
        let ghost s = self@;
        let n = self.files.len() - 1;
        let ghost f = top(s);
        assert(f == self.files@[n as int]@);
        let (key, value) = match parse_metadata_chars(comment) {
            Some(kv) => kv,
            None => {
                return ;
            },
        };
        proof {
            reveal_strlit("group");
            reveal_strlit("folder");
            reveal_strlit("expanded");
            reveal_strlit("hidden");
            reveal_strlit("description");
            reveal_strlit("desc");
            reveal_strlit("host-description");
            reveal_strlit("host_description");
            assert("group"@ =~= seq!['g', 'r', 'o', 'u', 'p']);
            assert("folder"@ =~= seq!['f', 'o', 'l', 'd', 'e', 'r']);
            assert("expanded"@ =~= seq!['e', 'x', 'p', 'a', 'n', 'd', 'e', 'd']);
            assert("hidden"@ =~= seq!['h', 'i', 'd', 'd', 'e', 'n']);
            assert("description"@ =~= seq!['d', 'e', 's', 'c', 'r', 'i', 'p', 't', 'i', 'o', 'n']);
            assert("desc"@ =~= seq!['d', 'e', 's', 'c']);
            assert("host-description"@ =~= seq!['h', 'o', 's', 't', '-', 'd', 'e', 's', 'c', 'r', 'i', 'p', 't', 'i', 'o', 'n']);
            assert("host_description"@ =~= seq!['h', 'o', 's', 't', '_', 'd', 'e', 's', 'c', 'r', 'i', 'p', 't', 'i', 'o', 'n']);
        }
        if str_eq("group", &key) || str_eq("folder", &key) {
            let (p, d) = split_metadata_value_chars(&value);
            let path = split_group_path_chars(&p);
            if path.len() == 0 {
                return ;
            }
            let has_description = d.is_some();
            let g = ScanGroup {
                path: clone_nested(&path),
                description: d,
                expanded: false,
                source: clone_chars(&self.files[n].path),
                line: self.files[n].line,
            };
            let ghost pv = views(path@);
            assert(g@ == GroupView {
                path: pv,
                description: split_metadata_value(value@).1,
                expanded_by_default: false,
                source: f.path,
                line: f.line,
            });
            insert_group_exec(&mut self.groups, g);
            self.files[n].active_group = Some(path);
            self.files[n].describe_group = !has_description;
            let ghost expected = comment_step(s, comment@);
            assert(file_views(self.files@) =~= expected.files);
            assert(scan_group_views(self.groups@) =~= expected.groups);
            return ;
        } else if str_eq("expanded", &key) {
            match &self.files[n].active_group {
                Some(p) => {
                    let p2 = clone_nested(p);
                    mark_expanded_exec(&mut self.groups, &p2);
                },
                None => {},
            }
        } else if str_eq("hidden", &key) {
            self.files[n].pending_hidden = true;
        } else if str_eq("description", &key) || str_eq("desc", &key) || str_eq(
            "host-description",
            &key,
        ) || str_eq("host_description", &key) {
            let t = trim_chars(&value);
            if t.len() > 0 {
                if self.files[n].describe_group && self.files[n].active_group.is_some() {
                    let p = match &self.files[n].active_group {
                        Some(p) => clone_nested(p),
                        None => Vec::new(),
                    };
                    describe_exec(&mut self.groups, &p, &t);
                    self.files[n].describe_group = false;
                } else {
                    self.files[n].pending_description = Some(t);
                }
            }
        }
        let ghost expected = comment_step(s, comment@);
        assert(file_views(self.files@) =~= expected.files);
        assert(scanned_views(self.hosts@) =~= expected.hosts);
        assert(block_views(self.blocks@) =~= expected.blocks);
        assert(scan_group_views(self.groups@) =~= expected.groups);
        assert(views(self.visited@) =~= expected.visited);
    }

    /// Reads one line of the innermost file. For an `Include` line the
    /// patterns are handed back: the caller reads the files they name before
    /// the next line.
    pub fn scan_line(&mut self, raw: &str) -> (r: Option<Vec<String>>)
        requires
            old(self)@.files.len() > 0,
        ensures
            (final(self)@, match r {
                Some(v) => Some(string_views(v@)),
                None => None,
            }) == scan_line_spec(old(self)@, raw@),
    {
        let ghost s = self@;
        let n = self.files.len() - 1;
        let ghost f0 = top(s);
        assert(f0 == self.files@[n as int]@);
        if self.files[n].line < usize::MAX {
            self.files[n].line = self.files[n].line + 1;
        }
        let ghost f = self.files@[n as int]@;
        let ghost s1 = self@;
        assert(file_views(self.files@) =~= with_top(s, f).files);
        assert(s1 == with_top(s, f));
        let raw_chars = chars_of(raw);
        let trimmed = trim_chars(&raw_chars);
        if trimmed.len() > 0 && trimmed[0] == '#' {
            let rest = crate::text::slice_to_vec(&trimmed, 1, trimmed.len());
            assert(rest@ =~= trimmed@.drop_first());
            let comment = trim_chars(&rest);
            self.apply_comment_metadata(&comment);
            return None;
        }
        match parse_directive_chars(&trimmed) {
            None => {
                if trimmed.len() > 0 {
                    self.end_block_exec();
                    assert(file_views(self.files@) =~= with_top(s1, end_block(f)).files);
                }
                None
            },
            Some((k, values)) => {
                proof {
                    reveal_strlit("include");
                    reveal_strlit("host");
                    reveal_strlit("match");
                    assert("include"@ =~= seq!['i', 'n', 'c', 'l', 'u', 'd', 'e']);
                    assert("host"@ =~= seq!['h', 'o', 's', 't']);
                    assert("match"@ =~= seq!['m', 'a', 't', 'c', 'h']);
                }
                let include_word = chars_of("include");
                let host_word = chars_of("host");
                let match_word = chars_of("match");
                if eq_ignore_ascii_case(&k, &include_word) {
                    self.end_block_exec();
                    assert(file_views(self.files@) =~= with_top(s1, end_block(f)).files);
                    let mut out: Vec<String> = Vec::new();
                    let mut i: usize = 0;
                    while i < values.len()
                        invariant
                            i <= values.len(),
                            string_views(out@) == views(values@).take(i as int),
                        decreases values.len() - i,
                    {
                        let v = crate::text::string_from(&values[i]);
                        let ghost before = out@;
                        out.push(v);
                        assert(out@ =~= before.push(v));
                        assert(string_views(out@) =~= string_views(before).push(v@));
                        assert(views(values@).take(i + 1) =~= views(values@).take(i as int).push(
                            values@[i as int]@,
                        ));
                        i = i + 1;
                    }
                    assert(views(values@).take(i as int) =~= views(values@));
                    Some(out)
                } else if eq_ignore_ascii_case(&k, &host_word) {
                    self.host_step_exec(&values);
                    None
                } else if eq_ignore_ascii_case(&k, &match_word) {
                    self.files[n].current_hosts = Vec::new();
                    self.files[n].current_block = None;
                    assert(file_views(self.files@) =~= with_top(
                        s1,
                        FileView { current_hosts: Seq::empty(), current_block: None, ..f },
                    ).files);
                    None
                } else {
                    self.option_step_exec(&k, &values);
                    None
                }
            },
        }
    }

    fn end_block_exec(&mut self)
        requires
            old(self)@.files.len() > 0,
        ensures
            final(self)@ == with_top(old(self)@, end_block(top(old(self)@))),
    {
        let ghost s = self@;
        let n = self.files.len() - 1;
        self.files[n].current_hosts = Vec::new();
        self.files[n].current_block = None;
        self.files[n].pending_description = None;
        self.files[n].pending_hidden = false;
        assert(file_views(self.files@) =~= with_top(s, end_block(top(s))).files);
    }
}

// ---------------------------------------------------------------------------
// The configuration read
// ---------------------------------------------------------------------------

/// A host as the configuration presents it: what its own lines say, and
/// the settings resolved from every block that applies to its alias.
pub open spec fn host_of(h: ScannedView, blocks: Seq<HostBlockView>) -> HostView {
    HostView {
        alias: h.alias,
        description: h.description,
        group_path: h.group_path,
        source: h.source,
        line: h.line,
        options: h.options,
        resolved: resolve(effective_directives(blocks, h.alias)),
    }
}

/// The configuration that a finished scan of `source` describes.
pub open spec fn config_of(source: Seq<char>, s: ScanView) -> SshConfigView {
    SshConfigView {
        source,
        hosts: s.hosts.map_values(|h: ScannedView| host_of(h, s.blocks)),
        groups: s.groups,
    }
}

fn strings_of(v: &Vec<Vec<char>>) -> (r: Vec<String>)
    ensures
        string_views(r@) == views(v@),
{
    let mut r: Vec<String> = Vec::new();
    let mut i: usize = 0;
    while i < v.len()
        invariant
            i <= v.len(),
            string_views(r@) == views(v@).take(i as int),
        decreases v.len() - i,
    {
        let s = string_from(&v[i]);
        let ghost before = r@;
        r.push(s);
        assert(r@ =~= before.push(s));
        assert(string_views(r@) =~= string_views(before).push(s@));
        assert(views(v@).take(i + 1) =~= views(v@).take(i as int).push(v@[i as int]@));
        i = i + 1;
    }
    assert(views(v@).take(i as int) =~= views(v@));
    r
}

fn opt_string_of(v: &Option<Vec<char>>) -> (r: Option<String>)
    ensures
        opt_view(r) == opt_chars(*v),
{
    match v {
        Some(c) => Some(string_from(c)),
        None => None,
    }
}

fn option_entries(os: &Vec<Directive>) -> (r: Vec<(String, Vec<String>)>)
    ensures
        option_entry_views(r@) == directive_views(os@),
{
    let mut r: Vec<(String, Vec<String>)> = Vec::new();
    let mut i: usize = 0;
    while i < os.len()
        invariant
            i <= os.len(),
            option_entry_views(r@) == directive_views(os@).take(i as int),
        decreases os.len() - i,
    {
        let e = (string_from(&os[i].keyword), strings_of(&os[i].values));
        let ghost before = r@;
        r.push(e);
        assert(r@ =~= before.push(e));
        assert(option_entry_views(r@) =~= option_entry_views(before).push(os@[i as int]@));
        assert(directive_views(os@).take(i + 1) =~= directive_views(os@).take(i as int).push(
            os@[i as int]@,
        ));
        i = i + 1;
    }
    assert(directive_views(os@).take(i as int) =~= directive_views(os@));
    r
}

impl SshConfig {
    /// The configuration read by a finished scan of the file `source` and
    /// the files it includes: every host with the settings resolved for it,
    /// and the groups in path order.
    pub fn load(source: &str, scan: ConfigScan) -> (r: SshConfig)
        ensures
            r@ == config_of(source@, scan@),
    {
        let ghost sv = scan@;
        let mut hosts: Vec<HostEntry> = Vec::new();
        let mut i: usize = 0;
        while i < scan.hosts.len()
            invariant
                i <= scan.hosts.len(),
                sv == scan@,
                host_views(hosts@) == sv.hosts.take(i as int).map_values(
                    |h: ScannedView| host_of(h, sv.blocks),
                ),
            decreases scan.hosts.len() - i,
        {
            let h = &scan.hosts[i];
            let effective = effective_directives_of(&scan.blocks, &h.alias);
            let entry = HostEntry {
                alias: string_from(&h.alias),
                description: opt_string_of(&h.description),
                group_path: strings_of(&h.group_path),
                source: string_from(&h.source),
                line: h.line,
                options: option_entries(&h.options),
                resolved: resolve_host(&effective),
            };
            assert(entry@ == host_of(sv.hosts[i as int], sv.blocks));
            let ghost before = hosts@;
            hosts.push(entry);
            assert(hosts@ =~= before.push(entry));
            assert(host_views(hosts@) =~= host_views(before).push(entry@));
            assert(sv.hosts.take(i + 1) =~= sv.hosts.take(i as int).push(sv.hosts[i as int]));
            i = i + 1;
        }
        assert(sv.hosts.take(i as int) =~= sv.hosts);
        let mut groups: Vec<GroupEntry> = Vec::new();
        let mut j: usize = 0;
        while j < scan.groups.len()
            invariant
                j <= scan.groups.len(),
                sv == scan@,
                group_views(groups@) == sv.groups.take(j as int),
            decreases scan.groups.len() - j,
        {
            let g = &scan.groups[j];
            let entry = GroupEntry {
                path: strings_of(&g.path),
                description: opt_string_of(&g.description),
                expanded_by_default: g.expanded,
                source: string_from(&g.source),
                line: g.line,
            };
            let ghost before = groups@;
            groups.push(entry);
            assert(groups@ =~= before.push(entry));
            assert(group_views(groups@) =~= group_views(before).push(entry@));
            assert(sv.groups.take(j + 1) =~= sv.groups.take(j as int).push(sv.groups[j as int]));
            j = j + 1;
        }
        assert(sv.groups.take(j as int) =~= sv.groups);
        SshConfig { source: crate::text::owned(source), hosts, groups }
    }
}

} // verus!
