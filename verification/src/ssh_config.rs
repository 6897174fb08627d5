//! The model of an OpenSSH configuration: hosts, groups and the settings
//! resolved for each host, and where its files are found.
use vstd::prelude::*;

use crate::host_options::DirectiveView;
use crate::text::{append, owned, slice_to_vec, chars_of, string_from, string_views, views};

verus! {

pub open spec fn opt_view(o: Option<String>) -> Option<Seq<char>> {
    match o {
        Some(s) => Some(s@),
        None => None,
    }
}

/// Settings of a host as OpenSSH would use them.
#[derive(Debug, Clone, Default, PartialEq, Eq)]
pub struct ResolvedHost {
    pub host_name: Option<String>,
    pub user: Option<String>,
    pub port: Option<u16>,
    pub identity_files: Vec<String>,
    pub proxy_jump: Vec<String>,
}

pub struct ResolvedView {
    pub host_name: Option<Seq<char>>,
    pub user: Option<Seq<char>>,
    pub port: Option<u16>,
    pub identity_files: Seq<Seq<char>>,
    pub proxy_jump: Seq<Seq<char>>,
}

impl View for ResolvedHost {
    type V = ResolvedView;

    open spec fn view(&self) -> ResolvedView {
        ResolvedView {
            host_name: opt_view(self.host_name),
            user: opt_view(self.user),
            port: self.port,
            identity_files: string_views(self.identity_files@),
            proxy_jump: string_views(self.proxy_jump@),
        }
    }
}

pub open spec fn opt_chars(o: Option<Vec<char>>) -> Option<Seq<char>> {
    match o {
        Some(s) => Some(s@),
        None => None,
    }
}

pub open spec fn opt_path(o: Option<Vec<Vec<char>>>) -> Option<Seq<Seq<char>>> {
    match o {
        Some(p) => Some(views(p@)),
        None => None,
    }
}

// ---------------------------------------------------------------------------
// The configuration model
// ---------------------------------------------------------------------------

/// A group declared by a `@group` comment.
#[derive(Debug, Clone, PartialEq, Eq)]
pub struct GroupEntry {
    pub path: Vec<String>,
    pub description: Option<String>,
    pub expanded_by_default: bool,
    pub source: String,
    pub line: usize,
}

pub struct GroupView {
    pub path: Seq<Seq<char>>,
    pub description: Option<Seq<char>>,
    pub expanded_by_default: bool,
    pub source: Seq<char>,
    pub line: usize,
}

impl View for GroupEntry {
    type V = GroupView;

    open spec fn view(&self) -> GroupView {
        GroupView {
            path: string_views(self.path@),
            description: opt_view(self.description),
            expanded_by_default: self.expanded_by_default,
            source: self.source@,
            line: self.line,
        }
    }
}

pub open spec fn group_views(g: Seq<GroupEntry>) -> Seq<GroupView> {
    g.map_values(|x: GroupEntry| x@)
}

/// A concrete host named by a `Host` line.
#[derive(Debug, Clone, PartialEq, Eq)]
pub struct HostEntry {
    pub alias: String,
    pub description: Option<String>,
    pub group_path: Vec<String>,
    pub source: String,
    pub line: usize,
    /// The directives of the host's own block, merged by keyword and ordered
    /// by keyword.
    pub options: Vec<(String, Vec<String>)>,
    /// The settings in effect for the host, inherited ones included.
    pub resolved: ResolvedHost,
}

pub struct HostView {
    pub alias: Seq<char>,
    pub description: Option<Seq<char>>,
    pub group_path: Seq<Seq<char>>,
    pub source: Seq<char>,
    pub line: usize,
    pub options: Seq<DirectiveView>,
    pub resolved: ResolvedView,
}

pub open spec fn option_entry_views(o: Seq<(String, Vec<String>)>) -> Seq<DirectiveView> {
    o.map_values(
        |e: (String, Vec<String>)| DirectiveView { keyword: e.0@, values: string_views(e.1@) },
    )
}

impl View for HostEntry {
    type V = HostView;

    open spec fn view(&self) -> HostView {
        HostView {
            alias: self.alias@,
            description: opt_view(self.description),
            group_path: string_views(self.group_path@),
            source: self.source@,
            line: self.line,
            options: option_entry_views(self.options@),
            resolved: self.resolved@,
        }
    }
}

pub open spec fn host_views(h: Seq<HostEntry>) -> Seq<HostView> {
    h.map_values(|x: HostEntry| x@)
}

/// An OpenSSH configuration as the tree shows it.
#[derive(Debug, Clone, PartialEq, Eq)]
pub struct SshConfig {
    pub source: String,
    pub hosts: Vec<HostEntry>,
    pub groups: Vec<GroupEntry>,
}

pub struct SshConfigView {
    pub source: Seq<char>,
    pub hosts: Seq<HostView>,
    pub groups: Seq<GroupView>,
}

impl View for SshConfig {
    type V = SshConfigView;

    open spec fn view(&self) -> SshConfigView {
        SshConfigView {
            source: self.source@,
            hosts: host_views(self.hosts@),
            groups: group_views(self.groups@),
        }
    }
}

// ---------------------------------------------------------------------------
// Paths
// ---------------------------------------------------------------------------

/// `Path::join` on Unix: an absolute `rest` replaces `base`; otherwise the
/// two are joined with one `/` unless `base` is empty or already ends
/// with one.
pub open spec fn path_join(base: Seq<char>, rest: Seq<char>) -> Seq<char> {
    if rest.len() > 0 && rest[0] == '/' {
        rest
    } else if base.len() == 0 || base.last() == '/' {
        base + rest
    } else {
        base + seq!['/'] + rest
    }
}

pub fn path_join_chars(base: &[char], rest: &[char]) -> (r: Vec<char>)
    ensures
        r@ == path_join(base@, rest@),
{
    if rest.len() > 0 && rest[0] == '/' {
        return slice_to_vec(rest, 0, rest.len());
    }
    let mut r = slice_to_vec(base, 0, base.len());
    assert(base@.subrange(0, base@.len() as int) =~= base@);
    if !(base.len() == 0 || base[base.len() - 1] == '/') {
        r.push('/');
    }
    append(&mut r, rest);
    r
}

/// `~` and a leading `~/` stand for the home directory, where it is known.
pub open spec fn expand_tilde(path: Seq<char>, home: Option<Seq<char>>) -> Seq<char> {
    if path == seq!['~'] {
        match home {
            Some(h) => h,
            None => path,
        }
    } else if path.len() >= 2 && path[0] == '~' && path[1] == '/' {
        match home {
            Some(h) => path_join(h, path.skip(2)),
            None => path,
        }
    } else {
        path
    }
}

pub fn expand_tilde_str(path: &str, home: Option<&str>) -> (r: String)
    ensures
        r@ == expand_tilde(path@, opt_str_view(home)),
{
    let p = chars_of(path);
    if p.len() == 1 && p[0] == '~' {
        assert(p@ =~= seq!['~']);
        return match home {
            Some(h) => owned(h),
            None => owned(path),
        };
    }
    assert(p@ != seq!['~'] ==> true);
    if p.len() >= 2 && p[0] == '~' && p[1] == '/' {
        match home {
            Some(h) => {
                let hc = chars_of(h);
                let rest = slice_to_vec(&p, 2, p.len());
                assert(rest@ =~= p@.skip(2));
                let j = path_join_chars(&hc, &rest);
                string_from(&j)
            },
            None => owned(path),
        }
    } else {
        owned(path)
    }
}

pub open spec fn opt_str_view(o: Option<&str>) -> Option<Seq<char>> {
    match o {
        Some(s) => Some(s@),
        None => None,
    }
}

/// The file pattern an `Include` value names: after tilde expansion, a
/// relative pattern is taken below `~/.ssh`.
pub open spec fn include_pattern(value: Seq<char>, home: Option<Seq<char>>) -> Seq<char> {
    let expanded = expand_tilde(value, home);
    if expanded.len() > 0 && expanded[0] == '/' {
        expanded
    } else {
        match home {
            Some(h) => path_join(path_join(h, seq!['.', 's', 's', 'h']), expanded),
            None => expanded,
        }
    }
}

pub fn resolve_include_pattern(value: &str, home: Option<&str>) -> (r: String)
    ensures
        r@ == include_pattern(value@, opt_str_view(home)),
{
    let expanded = expand_tilde_str(value, home);
    let e = chars_of(expanded.as_str());
    if e.len() > 0 && e[0] == '/' {
        return expanded;
    }
    match home {
        Some(h) => {
            let hc = chars_of(h);
            let ssh = chars_of(".ssh");
            proof {
                reveal_strlit(".ssh");
            }
            assert(ssh@ =~= seq!['.', 's', 's', 'h']);
            let dir = path_join_chars(&hc, &ssh);
            let j = path_join_chars(&dir, &e);
            string_from(&j)
        },
        None => expanded,
    }
}

/// `~/.ssh/config`, where the home directory is known.
pub open spec fn default_config(home: Option<Seq<char>>) -> Option<Seq<char>> {
    match home {
        Some(h) => Some(
            path_join(
                path_join(h, seq!['.', 's', 's', 'h']),
                seq!['c', 'o', 'n', 'f', 'i', 'g'],
            ),
        ),
        None => None,
    }
}

pub fn default_config_path(home: Option<&str>) -> (r: Option<String>)
    ensures
        opt_view(r) == default_config(opt_str_view(home)),
{
    match home {
        Some(h) => {
            let hc = chars_of(h);
            let ssh = chars_of(".ssh");
            let config = chars_of("config");
            proof {
                reveal_strlit(".ssh");
                reveal_strlit("config");
            }
            assert(ssh@ =~= seq!['.', 's', 's', 'h']);
            assert(config@ =~= seq!['c', 'o', 'n', 'f', 'i', 'g']);
            let dir = path_join_chars(&hc, &ssh);
            let j = path_join_chars(&dir, &config);
            Some(string_from(&j))
        },
        None => None,
    }
}

} // verus!
