//! What reading a configuration keeps: groups ordered by path and options
//! ordered by keyword, each once; a line changes only the file being read;
//! a group stays active until the next `@group`.
use vstd::prelude::*;

use crate::config_scan::{
    visible_aliases,
    FileView,
    ScanView,
    ScannedView,
    add_option,
    add_to_hosts,
    comment_step,
    describe,
    groups_above,
    groups_below,
    host_step,
    insert_group,
    lemma_path_lt_transitive,
    mark_expanded,
    options_above,
    options_below,
    path_lt,
    scan_line_spec,
    top,
    with_top,
};
use crate::directive::{
    is_visible_host_alias, parse_metadata, split_group_path, split_metadata_value,
};
use crate::host_options::DirectiveView;
use crate::ssh_config::GroupView;
use crate::text::{lemma_seq_lt_transitive, seq_lt, trim};

verus! {

/// Groups in strictly increasing path order: each path once.
pub open spec fn groups_ordered(gs: Seq<GroupView>) -> bool {
    forall|i: int, j: int| 0 <= i < j < gs.len() ==> path_lt(#[trigger] gs[i].path, #[trigger] gs[j].path)
}

/// Options in strictly increasing keyword order: each keyword once.
pub open spec fn options_ordered(os: Seq<DirectiveView>) -> bool {
    forall|i: int, j: int|
        0 <= i < j < os.len() ==> seq_lt(#[trigger] os[i].keyword, #[trigger] os[j].keyword)
}

/// The order that a scan keeps.
pub open spec fn scan_ordered(s: ScanView) -> bool {
    &&& groups_ordered(s.groups)
    &&& forall|i: int| 0 <= i < s.hosts.len() ==> options_ordered(#[trigger] s.hosts[i].options)
}

// Groups ------------------------------------------------------------------

proof fn lemma_groups_below(gs: Seq<GroupView>, p: Seq<Seq<char>>)
    ensures
        forall|i: int|
            0 <= i < groups_below(gs, p).len() ==> gs.contains(#[trigger] groups_below(gs, p)[i])
                && path_lt(groups_below(gs, p)[i].path, p),
        groups_ordered(gs) ==> groups_ordered(groups_below(gs, p)),
    decreases gs.len(),
{
    if gs.len() > 0 {
        let rest = groups_below(gs.drop_last(), p);
        lemma_groups_below(gs.drop_last(), p);
        assert forall|i: int| 0 <= i < rest.len() implies gs.contains(#[trigger] rest[i]) by {
            let t = choose|t: int| 0 <= t < gs.drop_last().len() && gs.drop_last()[t] == rest[i];
            assert(gs[t] == rest[i]);
        }
        if groups_ordered(gs) {
            assert(groups_ordered(gs.drop_last())) by {
                assert forall|i: int, j: int| 0 <= i < j < gs.drop_last().len() implies path_lt(
                    #[trigger] gs.drop_last()[i].path,
                    #[trigger] gs.drop_last()[j].path,
                ) by {
                    assert(gs.drop_last()[i] == gs[i]);
                    assert(gs.drop_last()[j] == gs[j]);
                }
            }
            assert forall|i: int| 0 <= i < rest.len() implies path_lt(
                #[trigger] rest[i].path,
                gs.last().path,
            ) by {
                let t = choose|t: int| 0 <= t < gs.drop_last().len() && gs.drop_last()[t] == rest[i];
                assert(gs[t] == rest[i]);
                assert(path_lt(gs[t].path, gs[gs.len() - 1].path));
            }
        }
    }
}

proof fn lemma_groups_above(gs: Seq<GroupView>, p: Seq<Seq<char>>)
    ensures
        forall|i: int|
            0 <= i < groups_above(gs, p).len() ==> gs.contains(#[trigger] groups_above(gs, p)[i])
                && path_lt(p, groups_above(gs, p)[i].path),
        groups_ordered(gs) ==> groups_ordered(groups_above(gs, p)),
    decreases gs.len(),
{
    if gs.len() > 0 {
        let rest = groups_above(gs.drop_last(), p);
        lemma_groups_above(gs.drop_last(), p);
        assert forall|i: int| 0 <= i < rest.len() implies gs.contains(#[trigger] rest[i]) by {
            let t = choose|t: int| 0 <= t < gs.drop_last().len() && gs.drop_last()[t] == rest[i];
            assert(gs[t] == rest[i]);
        }
        if groups_ordered(gs) {
            assert(groups_ordered(gs.drop_last())) by {
                assert forall|i: int, j: int| 0 <= i < j < gs.drop_last().len() implies path_lt(
                    #[trigger] gs.drop_last()[i].path,
                    #[trigger] gs.drop_last()[j].path,
                ) by {
                    assert(gs.drop_last()[i] == gs[i]);
                    assert(gs.drop_last()[j] == gs[j]);
                }
            }
            assert forall|i: int| 0 <= i < rest.len() implies path_lt(
                #[trigger] rest[i].path,
                gs.last().path,
            ) by {
                let t = choose|t: int| 0 <= t < gs.drop_last().len() && gs.drop_last()[t] == rest[i];
                assert(gs[t] == rest[i]);
                assert(path_lt(gs[t].path, gs[gs.len() - 1].path));
            }
        }
    }
}

/// Putting a group in its place keeps the groups ordered.
pub proof fn law_insert_group_keeps_order(gs: Seq<GroupView>, g: GroupView)
    requires
        groups_ordered(gs),
    ensures
        groups_ordered(insert_group(gs, g)),
        insert_group(gs, g).contains(g),
{
    let below = groups_below(gs, g.path);
    let above = groups_above(gs, g.path);
    lemma_groups_below(gs, g.path);
    lemma_groups_above(gs, g.path);
    let r = insert_group(gs, g);
    let b1 = below.push(g);
    assert(r == b1 + above);
    assert forall|i: int, j: int| 0 <= i < j < r.len() implies path_lt(
        #[trigger] r[i].path,
        #[trigger] r[j].path,
    ) by {
        if j < below.len() {
            assert(r[i] == below[i] && r[j] == below[j]);
        } else if j == below.len() {
            assert(r[i] == below[i]);
        } else if i < below.len() {
            assert(r[i] == below[i]);
            assert(r[j] == above[j - below.len() - 1]);
            lemma_path_lt_transitive(below[i].path, g.path, above[j - below.len() - 1].path);
        } else if i == below.len() {
            assert(r[j] == above[j - below.len() - 1]);
        } else {
            assert(r[i] == above[i - below.len() - 1]);
            assert(r[j] == above[j - below.len() - 1]);
        }
    }
    assert(r[below.len() as int] == g);
}

proof fn lemma_same_paths_keep_order(gs: Seq<GroupView>, hs: Seq<GroupView>)
    requires
        groups_ordered(gs),
        gs.len() == hs.len(),
        forall|i: int| 0 <= i < gs.len() ==> (#[trigger] hs[i]).path == gs[i].path,
    ensures
        groups_ordered(hs),
{
    assert forall|i: int, j: int| 0 <= i < j < hs.len() implies path_lt(
        #[trigger] hs[i].path,
        #[trigger] hs[j].path,
    ) by {
        assert(path_lt(gs[i].path, gs[j].path));
    }
}

// Options -----------------------------------------------------------------

proof fn lemma_options_below(os: Seq<DirectiveView>, k: Seq<char>)
    ensures
        forall|i: int|
            0 <= i < options_below(os, k).len() ==> os.contains(#[trigger] options_below(os, k)[i])
                && seq_lt(options_below(os, k)[i].keyword, k),
        options_ordered(os) ==> options_ordered(options_below(os, k)),
    decreases os.len(),
{
    if os.len() > 0 {
        let rest = options_below(os.drop_last(), k);
        lemma_options_below(os.drop_last(), k);
        assert forall|i: int| 0 <= i < rest.len() implies os.contains(#[trigger] rest[i]) by {
            let t = choose|t: int| 0 <= t < os.drop_last().len() && os.drop_last()[t] == rest[i];
            assert(os[t] == rest[i]);
        }
        if options_ordered(os) {
            assert(options_ordered(os.drop_last())) by {
                assert forall|i: int, j: int| 0 <= i < j < os.drop_last().len() implies seq_lt(
                    #[trigger] os.drop_last()[i].keyword,
                    #[trigger] os.drop_last()[j].keyword,
                ) by {
                    assert(os.drop_last()[i] == os[i]);
                    assert(os.drop_last()[j] == os[j]);
                }
            }
            assert forall|i: int| 0 <= i < rest.len() implies seq_lt(
                #[trigger] rest[i].keyword,
                os.last().keyword,
            ) by {
                let t = choose|t: int| 0 <= t < os.drop_last().len() && os.drop_last()[t] == rest[i];
                assert(os[t] == rest[i]);
                assert(seq_lt(os[t].keyword, os[os.len() - 1].keyword));
            }
        }
    }
}

proof fn lemma_options_above(os: Seq<DirectiveView>, k: Seq<char>)
    ensures
        forall|i: int|
            0 <= i < options_above(os, k).len() ==> os.contains(#[trigger] options_above(os, k)[i])
                && seq_lt(k, options_above(os, k)[i].keyword),
        options_ordered(os) ==> options_ordered(options_above(os, k)),
    decreases os.len(),
{
    if os.len() > 0 {
        let rest = options_above(os.drop_last(), k);
        lemma_options_above(os.drop_last(), k);
        assert forall|i: int| 0 <= i < rest.len() implies os.contains(#[trigger] rest[i]) by {
            let t = choose|t: int| 0 <= t < os.drop_last().len() && os.drop_last()[t] == rest[i];
            assert(os[t] == rest[i]);
        }
        if options_ordered(os) {
            assert(options_ordered(os.drop_last())) by {
                assert forall|i: int, j: int| 0 <= i < j < os.drop_last().len() implies seq_lt(
                    #[trigger] os.drop_last()[i].keyword,
                    #[trigger] os.drop_last()[j].keyword,
                ) by {
                    assert(os.drop_last()[i] == os[i]);
                    assert(os.drop_last()[j] == os[j]);
                }
            }
            assert forall|i: int| 0 <= i < rest.len() implies seq_lt(
                #[trigger] rest[i].keyword,
                os.last().keyword,
            ) by {
                let t = choose|t: int| 0 <= t < os.drop_last().len() && os.drop_last()[t] == rest[i];
                assert(os[t] == rest[i]);
                assert(seq_lt(os[t].keyword, os[os.len() - 1].keyword));
            }
        }
    }
}

/// Adding values under a keyword keeps the options ordered.
pub proof fn law_add_option_keeps_order(os: Seq<DirectiveView>, k: Seq<char>, vals: Seq<Seq<char>>)
    requires
        options_ordered(os),
    ensures
        options_ordered(add_option(os, k, vals)),
{
    let below = options_below(os, k);
    let above = options_above(os, k);
    lemma_options_below(os, k);
    lemma_options_above(os, k);
    let r = add_option(os, k, vals);
    let d = DirectiveView { keyword: k, values: crate::config_scan::values_of(os, k) + vals };
    assert(r == below.push(d) + above);
    assert forall|i: int, j: int| 0 <= i < j < r.len() implies seq_lt(
        #[trigger] r[i].keyword,
        #[trigger] r[j].keyword,
    ) by {
        if j < below.len() {
            assert(r[i] == below[i] && r[j] == below[j]);
        } else if j == below.len() {
            assert(r[i] == below[i]);
        } else if i < below.len() {
            assert(r[i] == below[i]);
            assert(r[j] == above[j - below.len() - 1]);
            lemma_seq_lt_transitive(below[i].keyword, k, above[j - below.len() - 1].keyword);
        } else if i == below.len() {
            assert(r[j] == above[j - below.len() - 1]);
        } else {
            assert(r[i] == above[i - below.len() - 1]);
            assert(r[j] == above[j - below.len() - 1]);
        }
    }
}

proof fn lemma_add_to_hosts_keeps_order(
    hosts: Seq<ScannedView>,
    idxs: Seq<usize>,
    k: Seq<char>,
    vals: Seq<Seq<char>>,
)
    requires
        forall|i: int| 0 <= i < hosts.len() ==> options_ordered(#[trigger] hosts[i].options),
    ensures
        add_to_hosts(hosts, idxs, k, vals).len() == hosts.len(),
        forall|i: int|
            0 <= i < add_to_hosts(hosts, idxs, k, vals).len() ==> options_ordered(
                #[trigger] add_to_hosts(hosts, idxs, k, vals)[i].options,
            ),
    decreases idxs.len(),
{
    if idxs.len() > 0 {
        lemma_add_to_hosts_keeps_order(hosts, idxs.drop_last(), k, vals);
        let h = add_to_hosts(hosts, idxs.drop_last(), k, vals);
        let i = idxs.last() as int;
        if i < h.len() {
            law_add_option_keeps_order(h[i].options, k, vals);
        }
    }
}

// Lines -------------------------------------------------------------------

/// A `@group` (or `@folder`) comment naming a group.
pub open spec fn group_line(raw: Seq<char>) -> bool {
    let t = trim(raw);
    &&& t.len() > 0
    &&& t[0] == '#'
    &&& parse_metadata(trim(t.drop_first())) matches Some(kv) && (kv.0 == seq![
        'g',
        'r',
        'o',
        'u',
        'p',
    ] || kv.0 == seq!['f', 'o', 'l', 'd', 'e', 'r']) && split_group_path(
        split_metadata_value(kv.1).0,
    ).len() > 0
}

proof fn lemma_comment_step(s: ScanView, comment: Seq<char>)
    requires
        s.files.len() > 0,
        scan_ordered(s),
    ensures
        scan_ordered(comment_step(s, comment)),
        comment_step(s, comment).files.len() == s.files.len(),
        comment_step(s, comment).files.drop_last() =~= s.files.drop_last(),
        comment_step(s, comment).visited == s.visited,
        comment_step(s, comment).hosts == s.hosts,
{
    let f = top(s);
    match parse_metadata(comment) {
        None => {},
        Some((key, value)) => {
            if key == seq!['g', 'r', 'o', 'u', 'p'] || key == seq!['f', 'o', 'l', 'd', 'e', 'r'] {
                let (p, d) = split_metadata_value(value);
                let path = split_group_path(p);
                if path.len() > 0 {
                    law_insert_group_keeps_order(
                        s.groups,
                        GroupView {
                            path,
                            description: d,
                            expanded_by_default: false,
                            source: f.path,
                            line: f.line,
                        },
                    );
                }
            } else if key == seq!['e', 'x', 'p', 'a', 'n', 'd', 'e', 'd'] {
                if f.active_group is Some {
                    lemma_same_paths_keep_order(s.groups, mark_expanded(s.groups, f.active_group->0));
                }
            } else if key == seq!['h', 'i', 'd', 'd', 'e', 'n'] {
            } else if crate::config_scan::is_description_key(key) && trim(value).len() > 0 {
                if f.describe_group && f.active_group is Some {
                    lemma_same_paths_keep_order(
                        s.groups,
                        describe(s.groups, f.active_group->0, trim(value)),
                    );
                }
            }
        },
    }
}

/// Reading a line keeps the groups ordered by path, each path once, and
/// the options of every host ordered by keyword, each keyword once.
pub proof fn law_scan_line_keeps_order(s: ScanView, raw: Seq<char>)
    requires
        s.files.len() > 0,
        scan_ordered(s),
    ensures
        scan_ordered(scan_line_spec(s, raw).0),
{
    let f0 = top(s);
    let f = FileView {
        line: if f0.line < usize::MAX {
            (f0.line + 1) as usize
        } else {
            f0.line
        },
        ..f0
    };
    let s1 = with_top(s, f);
    let trimmed = trim(raw);
    if trimmed.len() > 0 && trimmed[0] == '#' {
        lemma_comment_step(s1, trim(trimmed.drop_first()));
    } else {
        match crate::directive::parse_directive(trimmed) {
            None => {},
            Some((k, values)) => {
                if crate::config_scan::keyword_is(k, seq!['i', 'n', 'c', 'l', 'u', 'd', 'e']) {
                } else if crate::config_scan::keyword_is(k, seq!['h', 'o', 's', 't']) {
                    let r = host_step(s1, values);
                    assert forall|i: int| 0 <= i < r.hosts.len() implies options_ordered(
                        #[trigger] r.hosts[i].options,
                    ) by {
                        if i < s1.hosts.len() {
                            assert(r.hosts[i] == s1.hosts[i]);
                        } else {
                            assert(r.hosts[i].options.len() == 0);
                        }
                    }
                } else if crate::config_scan::keyword_is(k, seq!['m', 'a', 't', 'c', 'h']) {
                } else {
                    lemma_add_to_hosts_keeps_order(s1.hosts, top(s1).current_hosts, k, values);
                }
            },
        }
    }
}

/// Reading a line changes only the state of the file being read.
pub proof fn law_line_changes_only_the_file_being_read(s: ScanView, raw: Seq<char>)
    requires
        s.files.len() > 0,
    ensures
        scan_line_spec(s, raw).0.files.len() == s.files.len(),
        scan_line_spec(s, raw).0.files.drop_last() == s.files.drop_last(),
        scan_line_spec(s, raw).0.visited == s.visited,
{
    let f0 = top(s);
    let f = FileView {
        line: if f0.line < usize::MAX {
            (f0.line + 1) as usize
        } else {
            f0.line
        },
        ..f0
    };
    let s1 = with_top(s, f);
    assert(s1.files.drop_last() =~= s.files.drop_last());
    let r = scan_line_spec(s, raw).0;
    let trimmed = trim(raw);
    if trimmed.len() > 0 && trimmed[0] == '#' {
        let c = trim(trimmed.drop_first());
        let cs = comment_step(s1, c);
        assert(cs.files.drop_last() =~= s1.files.drop_last()) by {
            assert(with_top(s1, top(s1)).files.drop_last() =~= s1.files.drop_last());
        }
    } else {
        assert(r.files.drop_last() =~= s1.files.drop_last());
    }
}

/// A group stays active until a `@group` line: no other line changes the
/// group of the hosts that follow.
pub proof fn law_group_stays_active(s: ScanView, raw: Seq<char>)
    requires
        s.files.len() > 0,
        !group_line(raw),
    ensures
        top(scan_line_spec(s, raw).0).active_group == top(s).active_group,
{
}

/// Every host read so far names one concrete host: no pattern, no
/// negation, nothing blank.
pub open spec fn concrete_hosts(s: ScanView) -> bool {
    forall|i: int| 0 <= i < s.hosts.len() ==> is_visible_host_alias(#[trigger] s.hosts[i].alias)
}

proof fn lemma_visible_aliases(values: Seq<Seq<char>>)
    ensures
        forall|i: int|
            0 <= i < visible_aliases(values).len() ==> is_visible_host_alias(
                #[trigger] visible_aliases(values)[i],
            ),
    decreases values.len(),
{
    if values.len() > 0 {
        lemma_visible_aliases(values.drop_last());
        let rest = visible_aliases(values.drop_last());
        let r = visible_aliases(values);
        assert forall|i: int| 0 <= i < r.len() implies is_visible_host_alias(#[trigger] r[i]) by {
            if i < rest.len() {
                assert(r[i] == rest[i]);
            }
        }
    }
}

proof fn lemma_add_to_hosts_aliases(
    hosts: Seq<ScannedView>,
    idxs: Seq<usize>,
    k: Seq<char>,
    vals: Seq<Seq<char>>,
)
    ensures
        add_to_hosts(hosts, idxs, k, vals).len() == hosts.len(),
        forall|i: int|
            0 <= i < hosts.len() ==> (#[trigger] add_to_hosts(hosts, idxs, k, vals)[i]).alias
                == hosts[i].alias,
    decreases idxs.len(),
{
    if idxs.len() > 0 {
        lemma_add_to_hosts_aliases(hosts, idxs.drop_last(), k, vals);
    }
}

/// Reading a line lists only concrete hosts: wildcard and negated patterns
/// of a `Host` line never become hosts.
pub proof fn law_scan_line_lists_only_concrete_hosts(s: ScanView, raw: Seq<char>)
    requires
        s.files.len() > 0,
        concrete_hosts(s),
    ensures
        concrete_hosts(scan_line_spec(s, raw).0),
{
    let f0 = top(s);
    let f = FileView {
        line: if f0.line < usize::MAX {
            (f0.line + 1) as usize
        } else {
            f0.line
        },
        ..f0
    };
    let s1 = with_top(s, f);
    let trimmed = trim(raw);
    if !(trimmed.len() > 0 && trimmed[0] == '#') {
        match crate::directive::parse_directive(trimmed) {
            None => {},
            Some((k, values)) => {
                if crate::config_scan::keyword_is(k, seq!['i', 'n', 'c', 'l', 'u', 'd', 'e']) {
                } else if crate::config_scan::keyword_is(k, seq!['h', 'o', 's', 't']) {
                    let r = host_step(s1, values);
                    lemma_visible_aliases(values);
                    let aliases = visible_aliases(values);
                    assert forall|i: int| 0 <= i < r.hosts.len() implies is_visible_host_alias(
                        #[trigger] r.hosts[i].alias,
                    ) by {
                        if i >= s1.hosts.len() && !top(s1).pending_hidden {
                            assert(r.hosts[i].alias == aliases[i - s1.hosts.len()]);
                        }
                    }
                } else if crate::config_scan::keyword_is(k, seq!['m', 'a', 't', 'c', 'h']) {
                } else {
                    lemma_add_to_hosts_aliases(s1.hosts, top(s1).current_hosts, k, values);
                }
            },
        }
    }
}

/// A `Host` line with the patterns `values`.
pub open spec fn host_line(raw: Seq<char>, values: Seq<Seq<char>>) -> bool {
    let t = trim(raw);
    &&& !(t.len() > 0 && t[0] == '#')
    &&& crate::directive::parse_directive(t) matches Some(kv) && crate::config_scan::keyword_is(
        kv.0,
        seq!['h', 'o', 's', 't'],
    ) && kv.1 == values
}

/// A `Host` block marked `@hidden` lists no host, and the mark is spent on
/// that block alone.
pub proof fn law_hidden_block_lists_no_host(s: ScanView, raw: Seq<char>, values: Seq<Seq<char>>)
    requires
        s.files.len() > 0,
        top(s).pending_hidden,
        host_line(raw, values),
    ensures
        scan_line_spec(s, raw).0.hosts == s.hosts,
        !top(scan_line_spec(s, raw).0).pending_hidden,
{
    let t = trim(raw);
    let kv = crate::directive::parse_directive(t)->0;
    assert(crate::text::ascii_lower_seq(kv.0).len() == 4) by {
        assert(crate::text::ascii_lower_seq(seq!['h', 'o', 's', 't']).len() == 4);
    }
    assert(crate::text::ascii_lower_seq(seq!['i', 'n', 'c', 'l', 'u', 'd', 'e']).len() == 7);
}

/// A `Host` line that is not marked `@hidden` lists, in order, each of its
/// concrete patterns as a host of the active group; the hosts read before
/// stay as they were.
pub proof fn law_host_line_lists_its_concrete_patterns(
    s: ScanView,
    raw: Seq<char>,
    values: Seq<Seq<char>>,
)
    requires
        s.files.len() > 0,
        !top(s).pending_hidden,
        host_line(raw, values),
    ensures
        scan_line_spec(s, raw).0.hosts.len() == s.hosts.len() + visible_aliases(values).len(),
        scan_line_spec(s, raw).0.hosts.take(s.hosts.len() as int) == s.hosts,
        forall|i: int|
            0 <= i < visible_aliases(values).len() ==> {
                let h = #[trigger] scan_line_spec(s, raw).0.hosts[s.hosts.len() + i];
                &&& h.alias == visible_aliases(values)[i]
                &&& h.description == top(s).pending_description
                &&& h.group_path == match top(s).active_group {
                    Some(p) => p,
                    None => Seq::<Seq<char>>::empty(),
                }
            },
{
    let t = trim(raw);
    let kv = crate::directive::parse_directive(t)->0;
    assert(crate::text::ascii_lower_seq(kv.0).len() == 4) by {
        assert(crate::text::ascii_lower_seq(seq!['h', 'o', 's', 't']).len() == 4);
    }
    assert(crate::text::ascii_lower_seq(seq!['i', 'n', 'c', 'l', 'u', 'd', 'e']).len() == 7);
    let r = scan_line_spec(s, raw).0;
    assert(r.hosts.take(s.hosts.len() as int) =~= s.hosts);
}

/// The state after reading some lines of the file being read.
pub open spec fn scan_lines(s: ScanView, lines: Seq<Seq<char>>) -> ScanView
    decreases lines.len(),
{
    if lines.len() == 0 {
        s
    } else {
        scan_line_spec(scan_lines(s, lines.drop_last()), lines.last()).0
    }
}

/// Reading the lines of an included file leaves the files that include it
/// as they were: once it is left, the including file goes on in the state
/// it had, its active group among it.
pub proof fn law_included_file_leaves_includer_unchanged(
    s: ScanView,
    entered: ScanView,
    lines: Seq<Seq<char>>,
)
    requires
        entered.files == s.files.push(crate::config_scan::fresh_file(entered.files.last().path)),
    ensures
        scan_lines(entered, lines).files.len() == s.files.len() + 1,
        scan_lines(entered, lines).files.drop_last() == s.files,
    decreases lines.len(),
{
    if lines.len() > 0 {
        law_included_file_leaves_includer_unchanged(s, entered, lines.drop_last());
        law_line_changes_only_the_file_being_read(scan_lines(entered, lines.drop_last()), lines.last());
    } else {
        assert(entered.files.drop_last() =~= s.files);
    }
}

} // verus!
