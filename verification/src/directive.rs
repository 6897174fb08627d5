//! Reading single lines of an OpenSSH configuration file: directives,
//! inline comments and the metadata comments that describe the tree.
use vstd::prelude::*;

use crate::text::{
    ascii_lower_seq,
    chars_of,
    is_whitespace,
    is_ws,
    slice_to_vec,
    split,
    split_chars,
    split_once,
    split_once_chars,
    split_whitespace_chars,
    string_from,
    string_views,
    to_ascii_lower_chars,
    trim,
    trim_chars,
    views,
    words,
};

verus! {

// ---------------------------------------------------------------------------
// Inline comments
// ---------------------------------------------------------------------------

/// Where an inline comment starts in `s`, reading from `i` with the given
/// quoting state: a `#` outside double quotes that is not escaped by a
/// backslash. The length of `s` when there is none.
pub open spec fn comment_start(s: Seq<char>, i: int, quoted: bool, escaped: bool) -> int
    decreases s.len() - i,
{
    if i < 0 || i >= s.len() {
        s.len() as int
    } else if escaped {
        comment_start(s, i + 1, quoted, false)
    } else if s[i] == '\\' {
        comment_start(s, i + 1, quoted, true)
    } else if s[i] == '"' {
        comment_start(s, i + 1, !quoted, false)
    } else if s[i] == '#' && !quoted {
        i
    } else {
        comment_start(s, i + 1, quoted, false)
    }
}

/// The text of a line before its inline comment.
pub open spec fn strip_inline_comment(s: Seq<char>) -> Seq<char> {
    s.take(comment_start(s, 0, false, false))
}

proof fn lemma_comment_start_bounds(s: Seq<char>, i: int, quoted: bool, escaped: bool)
    requires
        0 <= i <= s.len(),
    ensures
        i <= comment_start(s, i, quoted, escaped) <= s.len(),
    decreases s.len() - i,
{
    if i < s.len() {
        if escaped {
            lemma_comment_start_bounds(s, i + 1, quoted, false);
        } else if s[i] == '\\' {
            lemma_comment_start_bounds(s, i + 1, quoted, true);
        } else if s[i] == '"' {
            lemma_comment_start_bounds(s, i + 1, !quoted, false);
        } else if s[i] == '#' && !quoted {
        } else {
            lemma_comment_start_bounds(s, i + 1, quoted, false);
        }
    }
}

pub fn strip_inline_comment_chars(s: &[char]) -> (r: Vec<char>)
    ensures
        r@ == strip_inline_comment(s@),
{
    let mut quoted = false;
    let mut escaped = false;
    let mut i: usize = 0;
    while i < s.len()
        invariant
            i <= s.len(),
            comment_start(s@, i as int, quoted, escaped) == comment_start(s@, 0, false, false),
        decreases s.len() - i,
    {
        if escaped {
            escaped = false;
        } else if s[i] == '\\' {
            escaped = true;
        } else if s[i] == '"' {
            quoted = !quoted;
        } else if s[i] == '#' && !quoted {
            return slice_to_vec(s, 0, i);
        }
        i = i + 1;
    }
    assert(s@.take(s.len() as int) =~= s@);
    slice_to_vec(s, 0, s.len())
}

// ---------------------------------------------------------------------------
// Directives
// ---------------------------------------------------------------------------

/// What `shell_words::split` returns for `s`: the words, or `None` where it
/// reports a parse error (an unterminated quote).
pub uninterp spec fn shell_split(s: Seq<char>) -> Option<Seq<Seq<char>>>;

/// Trusted: calls `shell_words::split`. Its result depends on its argument
/// alone; `Err` is turned into `None`. Nothing else is claimed of the words.
#[verifier::external_body]
fn shell_words_split(s: &str) -> (r: Option<Vec<String>>)
    ensures
        match r {
            Some(words) => shell_split(s@) == Some(string_views(words@)),
            None => shell_split(s@) is None,
        },
{
    shell_words::split(s).ok()
}

/// The first whitespace character of `s` at or after `i` (or the length).
pub open spec fn find_ws(s: Seq<char>, i: int) -> int
    decreases s.len() - i,
{
    if 0 <= i < s.len() && !is_ws(s[i]) {
        find_ws(s, i + 1)
    } else {
        i
    }
}

/// Keyword and raw value of a directive line (already without its
/// comment, and trimmed): split at the first `=` when there is one, else at
/// the first whitespace character.
pub open spec fn keyword_and_value(line: Seq<char>) -> (Seq<char>, Seq<char>) {
    match split_once(line, '=') {
        Some((k, v)) => (trim(k), trim(v)),
        None => {
            let e = find_ws(line, 0);
            if e < line.len() {
                (trim(line.take(e)), trim(line.skip(e + 1)))
            } else {
                (trim(line), Seq::empty())
            }
        },
    }
}

/// The values of a directive: shell-style words, or the plain whitespace
/// separated words where the shell-style reading fails.
pub open spec fn directive_values(value: Seq<char>) -> Seq<Seq<char>> {
    match shell_split(value) {
        Some(ws) => ws,
        None => words(value),
    }
}

/// A configuration directive `keyword value...`, or `None` for a line that
/// holds no keyword.
pub open spec fn parse_directive(line: Seq<char>) -> Option<(Seq<char>, Seq<Seq<char>>)> {
    let content = trim(strip_inline_comment(line));
    if content.len() == 0 {
        None
    } else {
        let (keyword, value) = keyword_and_value(content);
        if keyword.len() == 0 {
            None
        } else {
            Some((keyword, directive_values(value)))
        }
    }
}

/// A line without `#` holds no inline comment.
proof fn lemma_no_comment(s: Seq<char>, i: int, quoted: bool, escaped: bool)
    requires
        0 <= i,
        forall|k: int| 0 <= k < s.len() ==> s[k] != '#',
    ensures
        comment_start(s, i, quoted, escaped) == s.len(),
    decreases s.len() - i,
{
    if i < s.len() {
        if escaped {
            lemma_no_comment(s, i + 1, quoted, false);
        } else if s[i] == '\\' {
            lemma_no_comment(s, i + 1, quoted, true);
        } else if s[i] == '"' {
            lemma_no_comment(s, i + 1, !quoted, false);
        } else {
            lemma_no_comment(s, i + 1, quoted, false);
        }
    }
}

/// `find` gives the first occurrence.
proof fn lemma_find_first(s: Seq<char>, c: char, k: int)
    requires
        0 <= k < s.len(),
        s[k] == c,
        forall|j: int| 0 <= j < k ==> s[j] != c,
    ensures
        crate::text::find(s, c) == Some(k),
{
    let f = choose|f: int| 0 <= f < s.len() && s[f] == c && forall|j: int| 0 <= j < f ==> s[j] != c;
    assert(f == k);
}

/// A directive written `K=V`, with no `=` in `K`, has the keyword `K` and
/// the value `V`, both trimmed.
pub proof fn law_keyword_and_value_at_equals(k: Seq<char>, v: Seq<char>)
    requires
        !k.contains('='),
    ensures
        keyword_and_value(k + seq!['='] + v) == (trim(k), trim(v)),
{
    let line = k + seq!['='] + v;
    assert forall|j: int| 0 <= j < k.len() implies line[j] != '=' by {
        assert(line[j] == k[j]);
        if line[j] == '=' {
            assert(k.contains('='));
        }
    }
    lemma_find_first(line, '=', k.len() as int);
    assert(line.take(k.len() as int) =~= k);
    assert(line.skip(k.len() as int + 1) =~= v);
}

/// Where `c` occurs in `s`, there is a first occurrence.
proof fn lemma_first_occurrence(s: Seq<char>, c: char, w: int) -> (f: int)
    requires
        0 <= w < s.len(),
        s[w] == c,
    ensures
        0 <= f <= w,
        s[f] == c,
        forall|j: int| 0 <= j < f ==> s[j] != c,
    decreases w,
{
    if exists|j: int| 0 <= j < w && s[j] == c {
        let j = choose|j: int| 0 <= j < w && s[j] == c;
        lemma_first_occurrence(s, c, j)
    } else {
        w
    }
}

/// A directive written `K V`, with no `=` anywhere and `K` free of
/// whitespace, has the keyword `K` and the value `V`, trimmed.
pub proof fn law_keyword_and_value_at_space(k: Seq<char>, v: Seq<char>)
    requires
        k.len() > 0,
        forall|j: int| 0 <= j < k.len() ==> !is_ws(#[trigger] k[j]),
        !k.contains('='),
        !v.contains('='),
    ensures
        keyword_and_value(k + seq![' '] + v) == (k, trim(v)),
{
    let line = k + seq![' '] + v;
    let e = k.len() as int;
    assert forall|j: int| 0 <= j < line.len() implies line[j] != '=' by {
        if j < e {
            assert(line[j] == k[j]);
            if line[j] == '=' {
                assert(k.contains('='));
            }
        } else if j > e {
            assert(line[j] == v[j - e - 1]);
            if line[j] == '=' {
                assert(v.contains('='));
            }
        }
    }
    assert(crate::text::find(line, '=') is None);
    assert forall|j: int| 0 <= j < e implies !is_ws(#[trigger] line[j]) by {
        assert(line[j] == k[j]);
    }
    lemma_find_ws_at(line, 0, e);
    assert(line.take(e) =~= k);
    assert(line.skip(e + 1) =~= v);
    crate::text::lemma_trim_is(k, 0, k.len() as int);
    assert(k.subrange(0, k.len() as int) =~= k);
}

/// A keyword read from a line that holds `=` never holds `=` itself.
pub proof fn law_keyword_has_no_equals(line: Seq<char>)
    requires
        line.contains('='),
    ensures
        !keyword_and_value(line).0.contains('='),
{
    let w = choose|w: int| 0 <= w < line.len() && line[w] == '=';
    let f = lemma_first_occurrence(line, '=', w);
    lemma_find_first(line, '=', f);
    let kk = line.take(f);
    assert(split_once(line, '=') == Some((kk, line.skip(f + 1))));
    assert(!kk.contains('=')) by {
        if kk.contains('=') {
            let t = choose|t: int| 0 <= t < kk.len() && kk[t] == '=';
            assert(line[t] == '=');
        }
    }
    crate::text::lemma_trim_within(kk, '=');
}

/// A configuration line `K=V`, with `K` free of `=`, neither part holding
/// `#`, and `K` not blank, is the directive with keyword `K` (trimmed) and
/// the values read from `V` (trimmed).
pub proof fn law_directive_written_with_equals(k: Seq<char>, v: Seq<char>)
    requires
        !k.contains('='),
        !k.contains('#'),
        !v.contains('#'),
        trim(k).len() > 0,
    ensures
        parse_directive(k + seq!['='] + v) == Some((trim(k), directive_values(trim(v)))),
{
    let line = k + seq!['='] + v;
    let e = k.len() as int;
    assert forall|j: int| 0 <= j < line.len() implies line[j] != '#' by {
        if j < e {
            assert(line[j] == k[j]);
            if line[j] == '#' {
                assert(k.contains('#'));
            }
        } else if j > e {
            assert(line[j] == v[j - e - 1]);
            if line[j] == '#' {
                assert(v.contains('#'));
            }
        }
    }
    lemma_no_comment(line, 0, false, false);
    assert(strip_inline_comment(line) =~= line);
    crate::text::lemma_skip_ws_bounds(line, 0);
    let a = crate::text::skip_ws(line, 0);
    assert(!is_ws(line[e]));
    assert(a <= e);
    crate::text::lemma_back_ws_bounds(line, a, line.len() as int);
    let b = crate::text::back_ws(line, a, line.len() as int);
    assert(b > e);
    let content = trim(line);
    assert(content == line.subrange(a, b));
    let m = b - e - 1;
    assert(content =~= k.skip(a) + seq!['='] + v.take(m));
    assert(!k.skip(a).contains('=')) by {
        if k.skip(a).contains('=') {
            let t = choose|t: int| 0 <= t < k.skip(a).len() && k.skip(a)[t] == '=';
            assert(k[a + t] == '=');
        }
    }
    law_keyword_and_value_at_equals(k.skip(a), v.take(m));
    assert forall|j: int| 0 <= j < a implies is_ws(#[trigger] k[j]) by {
        assert(line[j] == k[j]);
    }
    crate::text::lemma_trim_after_ws(k, a);
    assert forall|j: int| m <= j < v.len() implies is_ws(#[trigger] v[j]) by {
        assert(line[e + 1 + j] == v[j]);
    }
    crate::text::lemma_trim_before_ws(v, m);
}

pub fn keyword_and_value_chars(line: &[char]) -> (r: (Vec<char>, Vec<char>))
    ensures
        (r.0@, r.1@) == keyword_and_value(line@),
{
    match split_once_chars(line, '=') {
        Some((k, v)) => (trim_chars(&k), trim_chars(&v)),
        None => {
            let mut e: usize = 0;
            while e < line.len() && !is_whitespace(line[e])
                invariant
                    e <= line.len(),
                    find_ws(line@, e as int) == find_ws(line@, 0),
                decreases line.len() - e,
            {
                e = e + 1;
            }
            if e < line.len() {
                let k = slice_to_vec(line, 0, e);
                let v = slice_to_vec(line, e + 1, line.len());
                assert(k@ =~= line@.take(e as int));
                assert(v@ =~= line@.skip(e + 1));
                (trim_chars(&k), trim_chars(&v))
            } else {
                (trim_chars(line), Vec::new())
            }
        },
    }
}

/// Reads a directive line: keyword and values.
pub fn parse_directive_chars(line: &[char]) -> (r: Option<(Vec<char>, Vec<Vec<char>>)>)
    ensures
        match r {
            Some((k, vs)) => parse_directive(line@) == Some((k@, views(vs@))),
            None => parse_directive(line@) is None,
        },
{
    let stripped = strip_inline_comment_chars(line);
    let content = trim_chars(&stripped);
    if content.len() == 0 {
        return None;
    }
    let (keyword, value) = keyword_and_value_chars(&content);
    if keyword.len() == 0 {
        return None;
    }
    let value_str = string_from(&value);
    let values = match shell_words_split(value_str.as_str()) {
        Some(ws) => {
            let mut vs: Vec<Vec<char>> = Vec::new();
            let mut i: usize = 0;
            while i < ws.len()
                invariant
                    i <= ws.len(),
                    views(vs@) == string_views(ws@).take(i as int),
                decreases ws.len() - i,
            {
                let piece = chars_of(ws[i].as_str());
                let ghost old_vs = vs@;
                vs.push(piece);
                assert(vs@ =~= old_vs.push(piece));
                assert(views(vs@) =~= views(old_vs).push(piece@));
                assert(string_views(ws@).take(i + 1) =~= string_views(ws@).take(i as int).push(
                    ws@[i as int]@,
                ));
                i = i + 1;
            }
            assert(string_views(ws@).take(i as int) =~= string_views(ws@));
            vs
        },
        None => split_whitespace_chars(&value),
    };
    Some((keyword, values))
}

// ---------------------------------------------------------------------------
// Metadata comments
// ---------------------------------------------------------------------------

/// Key (ASCII lower-cased) and value of a metadata comment: `@key value` or
/// `key: value`. `None` where the comment holds no key.
pub open spec fn parse_metadata(comment: Seq<char>) -> Option<(Seq<char>, Seq<char>)> {
    let normalized = trim(comment);
    let kv: Option<(Seq<char>, Seq<char>)> = if normalized.len() > 0 && normalized[0] == '@' {
        let rest = normalized.drop_first();
        let e = find_ws(rest, 0);
        if e < rest.len() {
            Some((rest.take(e), rest.skip(e + 1)))
        } else {
            Some((rest, Seq::empty()))
        }
    } else {
        split_once(normalized, ':')
    };
    match kv {
        Some((k, v)) => {
            let key = ascii_lower_seq(trim(k));
            if key.len() == 0 {
                None
            } else {
                Some((key, trim(v)))
            }
        },
        None => None,
    }
}

proof fn lemma_find_ws_at(s: Seq<char>, i: int, e: int)
    requires
        0 <= i <= e < s.len(),
        forall|k: int| i <= k < e ==> !is_ws(#[trigger] s[k]),
        is_ws(s[e]),
    ensures
        find_ws(s, i) == e,
    decreases e - i,
{
    if i < e {
        lemma_find_ws_at(s, i + 1, e);
    }
}

/// A metadata comment `@key value` (after `#`) gives the key, lower-cased,
/// and the value, trimmed: `@Group Work/Prod` is the key `group` with the
/// value `Work/Prod`.
pub proof fn law_metadata_key_and_value(k: Seq<char>, v: Seq<char>)
    requires
        k.len() > 0,
        forall|j: int| 0 <= j < k.len() ==> !is_ws(#[trigger] k[j]),
    ensures
        parse_metadata(seq!['@'] + k + seq![' '] + v) == Some((ascii_lower_seq(k), trim(v))),
{
    let c = seq!['@'] + k + seq![' '] + v;
    let e = k.len() as int;
    assert(c[0] == '@');
    assert(!is_ws(c[0]));
    crate::text::lemma_skip_ws_bounds(c, 0);
    assert(crate::text::skip_ws(c, 0) == 0);
    crate::text::lemma_back_ws_bounds(c, 0, c.len() as int);
    let b = crate::text::back_ws(c, 0, c.len() as int);
    assert(c[e] == k[e - 1]);
    assert(!is_ws(c[e]));
    assert(b > e);
    let t = trim(c);
    assert(t == c.subrange(0, b));
    let rest = t.drop_first();
    crate::text::lemma_trim_is(k, 0, k.len() as int);
    assert(k.subrange(0, k.len() as int) =~= k);
    assert(ascii_lower_seq(k).len() == k.len());
    assert forall|j: int| 0 <= j < e implies !is_ws(#[trigger] rest[j]) by {
        assert(rest[j] == c[j + 1]);
        assert(c[j + 1] == k[j]);
    }
    if b == e + 1 {
        assert(rest =~= k);
        lemma_find_ws_none(rest, 0);
        assert forall|j: int| 0 <= j < v.len() implies is_ws(#[trigger] v[j]) by {
            assert(c[e + 2 + j] == v[j]);
        }
        crate::text::lemma_trim_before_ws(v, 0);
        assert(v.take(0) =~= Seq::<char>::empty());
        crate::text::lemma_trim_is(Seq::<char>::empty(), 0, 0);
    } else {
        let m = b - e - 2;
        assert(rest =~= k + seq![' '] + v.take(m));
        assert(is_ws(rest[e]));
        lemma_find_ws_at(rest, 0, e);
        assert(rest.take(e) =~= k);
        assert(rest.skip(e + 1) =~= v.take(m));
        assert forall|j: int| m <= j < v.len() implies is_ws(#[trigger] v[j]) by {
            assert(c[e + 2 + j] == v[j]);
        }
        crate::text::lemma_trim_before_ws(v, m);
    }
}

proof fn lemma_find_ws_none(s: Seq<char>, i: int)
    requires
        0 <= i <= s.len(),
        forall|k: int| i <= k < s.len() ==> !is_ws(#[trigger] s[k]),
    ensures
        find_ws(s, i) == s.len(),
    decreases s.len() - i,
{
    if i < s.len() {
        lemma_find_ws_none(s, i + 1);
    }
}

pub fn parse_metadata_chars(comment: &[char]) -> (r: Option<(Vec<char>, Vec<char>)>)
    ensures
        match r {
            Some((k, v)) => parse_metadata(comment@) == Some((k@, v@)),
            None => parse_metadata(comment@) is None,
        },
{
    let normalized = trim_chars(comment);
    let kv: Option<(Vec<char>, Vec<char>)> = if normalized.len() > 0 && normalized[0] == '@' {
        let rest = slice_to_vec(&normalized, 1, normalized.len());
        assert(rest@ =~= normalized@.drop_first());
        let mut e: usize = 0;
        while e < rest.len() && !is_whitespace(rest[e])
            invariant
                e <= rest.len(),
                find_ws(rest@, e as int) == find_ws(rest@, 0),
            decreases rest.len() - e,
        {
            e = e + 1;
        }
        if e < rest.len() {
            let k = slice_to_vec(&rest, 0, e);
            let v = slice_to_vec(&rest, e + 1, rest.len());
            assert(k@ =~= rest@.take(e as int));
            assert(v@ =~= rest@.skip(e + 1));
            Some((k, v))
        } else {
            Some((rest, Vec::new()))
        }
    } else {
        split_once_chars(&normalized, ':')
    };
    match kv {
        Some((k, v)) => {
            let tk = trim_chars(&k);
            let key = to_ascii_lower_chars(&tk);
            if key.len() == 0 {
                None
            } else {
                Some((key, trim_chars(&v)))
            }
        },
        None => None,
    }
}

/// `name | description`: the trimmed name and a description when one is
/// given and not blank.
pub open spec fn split_metadata_value(value: Seq<char>) -> (Seq<char>, Option<Seq<char>>) {
    match split_once(value, '|') {
        Some((name, description)) => (
            trim(name),
            if trim(description).len() > 0 {
                Some(trim(description))
            } else {
                None
            },
        ),
        None => (trim(value), None),
    }
}

pub fn split_metadata_value_chars(value: &[char]) -> (r: (Vec<char>, Option<Vec<char>>))
    ensures
        (r.0@, match r.1 {
            Some(d) => Some(d@),
            None => None,
        }) == split_metadata_value(value@),
{
    match split_once_chars(value, '|') {
        Some((name, description)) => {
            let d = trim_chars(&description);
            (trim_chars(&name), if d.len() > 0 {
                Some(d)
            } else {
                None
            })
        },
        None => (trim_chars(value), None),
    }
}

/// The non-empty trimmed pieces of a sequence of pieces.
pub open spec fn nonblank_trimmed(pieces: Seq<Seq<char>>) -> Seq<Seq<char>>
    decreases pieces.len(),
{
    if pieces.len() == 0 {
        Seq::empty()
    } else {
        let rest = nonblank_trimmed(pieces.drop_last());
        if trim(pieces.last()).len() > 0 {
            rest.push(trim(pieces.last()))
        } else {
            rest
        }
    }
}

pub fn nonblank_trimmed_chars(pieces: &Vec<Vec<char>>) -> (r: Vec<Vec<char>>)
    ensures
        views(r@) == nonblank_trimmed(views(pieces@)),
{
    let mut r: Vec<Vec<char>> = Vec::new();
    let mut i: usize = 0;
    while i < pieces.len()
        invariant
            i <= pieces.len(),
            views(r@) == nonblank_trimmed(views(pieces@).take(i as int)),
        decreases pieces.len() - i,
    {
        assert(views(pieces@).take(i + 1).drop_last() =~= views(pieces@).take(i as int));
        assert(views(pieces@).take(i + 1).last() == pieces@[i as int]@);
        let t = trim_chars(&pieces[i]);
        if t.len() > 0 {
            let ghost old_r = r@;
            r.push(t);
            assert(r@ =~= old_r.push(t));
            assert(views(r@) =~= views(old_r).push(t@));
        }
        i = i + 1;
    }
    assert(views(pieces@).take(i as int) =~= views(pieces@));
    r
}

/// The segments of a group path `A / B / C`.
pub open spec fn split_group_path(path: Seq<char>) -> Seq<Seq<char>> {
    nonblank_trimmed(split(path, '/'))
}

/// No part of a group path holds `/` or is blank.
pub proof fn law_group_path_parts_hold_no_slash(path: Seq<char>)
    ensures
        forall|i: int|
            0 <= i < split_group_path(path).len() ==> !(#[trigger] split_group_path(path)[i]).contains('/')
                && split_group_path(path)[i].len() > 0,
{
    crate::host_options::lemma_split_state_without_sep(path, '/');
    let pieces = split(path, '/');
    let (done, cur) = crate::text::split_state(path, '/');
    assert forall|i: int| 0 <= i < pieces.len() implies !(#[trigger] pieces[i]).contains('/') by {
        if i < done.len() {
            assert(pieces[i] == done[i]);
        }
    }
    crate::host_options::lemma_nonblank_trimmed_without(pieces, '/');
}

/// A group path `a/b` names the group `b` inside the group `a`, each name
/// trimmed.
pub proof fn law_slash_nests_groups(a: Seq<char>, b: Seq<char>)
    requires
        !a.contains('/'),
        !b.contains('/'),
        trim(a).len() > 0,
        trim(b).len() > 0,
    ensures
        split_group_path(a + seq!['/'] + b) == seq![trim(a), trim(b)],
{
    crate::host_options::lemma_split_pair(a, b, '/');
    crate::host_options::lemma_nonblank_trimmed_pair(a, b);
}

/// An unquoted, unescaped `#` starts an inline comment: what comes before
/// it is the text of the line.
pub proof fn law_hash_starts_a_comment(a: Seq<char>, b: Seq<char>)
    requires
        !a.contains('#'),
        !a.contains('"'),
        !a.contains('\\'),
    ensures
        strip_inline_comment(a + seq!['#'] + b) == a,
{
    let s = a + seq!['#'] + b;
    lemma_comment_prefix(s, a.len() as int, 0);
    assert(s.take(a.len() as int) =~= a);
}

proof fn lemma_comment_prefix(s: Seq<char>, e: int, i: int)
    requires
        0 <= i <= e < s.len(),
        s[e] == '#',
        forall|k: int| 0 <= k < e ==> s[k] != '#' && s[k] != '"' && s[k] != '\\',
    ensures
        comment_start(s, i, false, false) == e,
    decreases e - i,
{
    if i < e {
        lemma_comment_prefix(s, e, i + 1);
    }
}

pub fn split_group_path_chars(path: &[char]) -> (r: Vec<Vec<char>>)
    ensures
        views(r@) == split_group_path(path@),
{
    let pieces = split_chars(path, '/');
    nonblank_trimmed_chars(&pieces)
}

/// A `Host` pattern that names one concrete host: not negated, no
/// wildcard, not blank.
pub open spec fn is_visible_host_alias(value: Seq<char>) -> bool {
    &&& !(value.len() > 0 && value[0] == '!')
    &&& !value.contains('*')
    &&& !value.contains('?')
    &&& trim(value).len() > 0
}

pub fn is_visible_host_alias_chars(value: &[char]) -> (r: bool)
    ensures
        r == is_visible_host_alias(value@),
{
    if value.len() > 0 && value[0] == '!' {
        return false;
    }
    let mut i: usize = 0;
    while i < value.len()
        invariant
            i <= value.len(),
            forall|k: int| 0 <= k < i ==> value@[k] != '*' && value@[k] != '?',
        decreases value.len() - i,
    {
        if value[i] == '*' || value[i] == '?' {
            return false;
        }
        i = i + 1;
    }
    let t = trim_chars(value);
    t.len() > 0
}

} // verus!
