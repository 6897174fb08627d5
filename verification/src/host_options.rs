//! Effective options of a host: the directives of every `Host` block whose
//! patterns match the host's alias, in configuration order, and the values
//! that are read from them (the first obtained value wins).
use vstd::prelude::*;

use crate::directive::{nonblank_trimmed, nonblank_trimmed_chars};
use crate::ssh_config::{ResolvedHost, ResolvedView, opt_view};
use crate::text::{
    chars_of,
    eq_ignore_ascii_case,
    eq_ignore_case,
    parse_u16,
    parse_u16_chars,
    split,
    split_chars,
    split_state,
    string_from,
    views,
};

verus! {

/// One directive: a keyword and its values.
#[derive(Clone, Debug)]
pub struct Directive {
    pub keyword: Vec<char>,
    pub values: Vec<Vec<char>>,
}

pub struct DirectiveView {
    pub keyword: Seq<char>,
    pub values: Seq<Seq<char>>,
}

impl View for Directive {
    type V = DirectiveView;

    open spec fn view(&self) -> DirectiveView {
        DirectiveView { keyword: self.keyword@, values: views(self.values@) }
    }
}

pub open spec fn directive_views(d: Seq<Directive>) -> Seq<DirectiveView> {
    d.map_values(|x: Directive| x@)
}

/// A `Host` block: its patterns and the directives that follow it.
#[derive(Clone, Debug)]
pub struct HostBlock {
    pub patterns: Vec<Vec<char>>,
    pub directives: Vec<Directive>,
}

pub struct HostBlockView {
    pub patterns: Seq<Seq<char>>,
    pub directives: Seq<DirectiveView>,
}

impl View for HostBlock {
    type V = HostBlockView;

    open spec fn view(&self) -> HostBlockView {
        HostBlockView { patterns: views(self.patterns@), directives: directive_views(self.directives@) }
    }
}

pub open spec fn block_views(b: Seq<HostBlock>) -> Seq<HostBlockView> {
    b.map_values(|x: HostBlock| x@)
}

// ---------------------------------------------------------------------------
// Host patterns
// ---------------------------------------------------------------------------

/// OpenSSH host pattern matching: `*` matches any run of characters, `?`
/// any one character, every other character itself.
pub open spec fn glob(p: Seq<char>, t: Seq<char>) -> bool
    decreases p.len(), t.len(),
{
    if p.len() == 0 {
        t.len() == 0
    } else if p[0] == '*' {
        glob(p.drop_first(), t) || (t.len() > 0 && glob(p, t.drop_first()))
    } else if t.len() == 0 {
        false
    } else if p[0] == '?' || p[0] == t[0] {
        glob(p.drop_first(), t.drop_first())
    } else {
        false
    }
}

/// A pattern without `*` or `?` matches exactly the one name it spells.
pub proof fn law_plain_pattern_matches_only_itself(p: Seq<char>, t: Seq<char>)
    requires
        forall|k: int| 0 <= k < p.len() ==> #[trigger] p[k] != '*' && p[k] != '?',
    ensures
        glob(p, t) <==> p == t,
    decreases p.len(),
{
    if p.len() == 0 {
        if t.len() == 0 {
            assert(p =~= t);
        }
    } else if t.len() > 0 {
        assert forall|k: int| 0 <= k < p.drop_first().len() implies #[trigger] p.drop_first()[k]
            != '*' && p.drop_first()[k] != '?' by {
            assert(p.drop_first()[k] == p[k + 1]);
        }
        law_plain_pattern_matches_only_itself(p.drop_first(), t.drop_first());
        assert(p[0] != '*' && p[0] != '?');
        if p[0] == t[0] && p.drop_first() == t.drop_first() {
            assert(p =~= t) by {
                assert forall|k: int| 0 <= k < p.len() implies p[k] == t[k] by {
                    if k > 0 {
                        assert(p[k] == p.drop_first()[k - 1]);
                        assert(t[k] == t.drop_first()[k - 1]);
                    }
                }
            }
        }
        if p == t {
            assert(p.drop_first() =~= t.drop_first());
        }
    } else {
        assert(p[0] != '*');
        assert(p != t);
    }
}

/// The pattern `*` matches every name.
pub proof fn law_star_matches_every_name(t: Seq<char>)
    ensures
        glob(seq!['*'], t),
    decreases t.len(),
{
    let star = seq!['*'];
    assert(star.len() == 1 && star[0] == '*');
    assert(star.drop_first() =~= Seq::<char>::empty());
    if t.len() > 0 {
        law_star_matches_every_name(t.drop_first());
        assert(glob(star, t.drop_first()));
    } else {
        assert(glob(star.drop_first(), t));
    }
}

fn glob_at(p: &[char], i: usize, t: &[char], j: usize) -> (r: bool)
    requires
        i <= p.len(),
        j <= t.len(),
    ensures
        r == glob(p@.skip(i as int), t@.skip(j as int)),
    decreases p.len() - i, t.len() - j,
{
    let ghost ps = p@.skip(i as int);
    let ghost ts = t@.skip(j as int);
    if i < p.len() {
        assert(ps.drop_first() =~= p@.skip(i + 1));
        assert(ps[0] == p@[i as int]);
    }
    if j < t.len() {
        assert(ts.drop_first() =~= t@.skip(j + 1));
        assert(ts[0] == t@[j as int]);
    }
    if i == p.len() {
        j == t.len()
    } else if p[i] == '*' {
        glob_at(p, i + 1, t, j) || (j < t.len() && glob_at(p, i, t, j + 1))
    } else if j == t.len() {
        false
    } else if p[i] == '?' || p[i] == t[j] {
        glob_at(p, i + 1, t, j + 1)
    } else {
        false
    }
}

pub fn glob_match(p: &[char], t: &[char]) -> (r: bool)
    ensures
        r == glob(p@, t@),
{
    assert(p@.skip(0) =~= p@);
    assert(t@.skip(0) =~= t@);
    glob_at(p, 0, t, 0)
}

pub open spec fn is_negated(p: Seq<char>) -> bool {
    p.len() > 0 && p[0] == '!'
}

/// A `Host` block applies to `alias` when one of its plain patterns matches
/// the alias and none of its negated (`!`) patterns does.
pub open spec fn block_applies(patterns: Seq<Seq<char>>, alias: Seq<char>) -> bool {
    &&& exists|k: int|
        0 <= k < patterns.len() && !is_negated(#[trigger] patterns[k]) && glob(patterns[k], alias)
    &&& forall|k: int|
        0 <= k < patterns.len() && is_negated(#[trigger] patterns[k]) ==> !glob(
            patterns[k].drop_first(),
            alias,
        )
}

pub fn block_applies_to(patterns: &Vec<Vec<char>>, alias: &[char]) -> (r: bool)
    ensures
        r == block_applies(views(patterns@), alias@),
{
    let ghost ps = views(patterns@);
    let mut positive = false;
    let mut i: usize = 0;
    while i < patterns.len()
        invariant
            i <= patterns.len(),
            ps == views(patterns@),
            positive == exists|k: int|
                0 <= k < i && !is_negated(#[trigger] ps[k]) && glob(ps[k], alias@),
            forall|k: int|
                0 <= k < i && is_negated(#[trigger] ps[k]) ==> !glob(ps[k].drop_first(), alias@),
        decreases patterns.len() - i,
    {
        let p = &patterns[i];
        assert(ps[i as int] == p@);
        if p.len() > 0 && p[0] == '!' {
            let body = crate::text::slice_to_vec(p, 1, p.len());
            assert(body@ =~= p@.drop_first());
            if glob_match(&body, alias) {
                return false;
            }
        } else if glob_match(p, alias) {
            positive = true;
        }
        i = i + 1;
    }
    positive
}

// ---------------------------------------------------------------------------
// Effective options
// ---------------------------------------------------------------------------

/// The directives of every block that applies to `alias`, in order.
pub open spec fn effective_directives(blocks: Seq<HostBlockView>, alias: Seq<char>) -> Seq<
    DirectiveView,
>
    decreases blocks.len(),
{
    if blocks.len() == 0 {
        Seq::empty()
    } else {
        let rest = effective_directives(blocks.drop_last(), alias);
        if block_applies(blocks.last().patterns, alias) {
            rest + blocks.last().directives
        } else {
            rest
        }
    }
}

/// A copy of a vector of character sequences.
pub fn clone_nested(v: &Vec<Vec<char>>) -> (r: Vec<Vec<char>>)
    ensures
        views(r@) == views(v@),
{
    let mut r: Vec<Vec<char>> = Vec::new();
    let mut i: usize = 0;
    while i < v.len()
        invariant
            i <= v.len(),
            views(r@) == views(v@).take(i as int),
        decreases v.len() - i,
    {
        let c = v[i].clone();
        assert(c@ =~= v@[i as int]@);
        let ghost old_r = r@;
        r.push(c);
        assert(r@ =~= old_r.push(c));
        assert(views(r@) =~= views(old_r).push(c@));
        assert(views(v@).take(i + 1) =~= views(v@).take(i as int).push(v@[i as int]@));
        i = i + 1;
    }
    assert(views(v@).take(i as int) =~= views(v@));
    r
}

impl Directive {
    /// A copy of the directive.
    pub fn duplicate(&self) -> (r: Directive)
        ensures
            r@ == self@,
    {
        let k = self.keyword.clone();
        assert(k@ =~= self.keyword@);
        Directive { keyword: k, values: clone_nested(&self.values) }
    }
}

/// Appends copies of `src` to `dst`.
pub fn extend_directives(dst: &mut Vec<Directive>, src: &Vec<Directive>)
    ensures
        directive_views(final(dst)@) == directive_views(old(dst)@) + directive_views(src@),
{
    let mut j: usize = 0;
    while j < src.len()
        invariant
            j <= src.len(),
            directive_views(dst@) == directive_views(old(dst)@) + directive_views(src@).take(
                j as int,
            ),
        decreases src.len() - j,
    {
        let d = src[j].duplicate();
        let ghost before = dst@;
        dst.push(d);
        assert(dst@ =~= before.push(d));
        assert(directive_views(dst@) =~= directive_views(before).push(d@));
        assert(directive_views(src@).take(j + 1) =~= directive_views(src@).take(j as int).push(
            src@[j as int]@,
        ));
        j = j + 1;
    }
    assert(directive_views(src@).take(j as int) =~= directive_views(src@));
}

pub fn effective_directives_of(blocks: &Vec<HostBlock>, alias: &[char]) -> (r: Vec<Directive>)
    ensures
        directive_views(r@) == effective_directives(block_views(blocks@), alias@),
{
    let mut r: Vec<Directive> = Vec::new();
    let mut i: usize = 0;
    while i < blocks.len()
        invariant
            i <= blocks.len(),
            directive_views(r@) == effective_directives(block_views(blocks@).take(i as int), alias@),
        decreases blocks.len() - i,
    {
        assert(block_views(blocks@).take(i + 1).drop_last() =~= block_views(blocks@).take(
            i as int,
        ));
        assert(block_views(blocks@).take(i + 1).last() == blocks@[i as int]@);
        if block_applies_to(&blocks[i].patterns, alias) {
            extend_directives(&mut r, &blocks[i].directives);
        }
        i = i + 1;
    }
    assert(block_views(blocks@).take(i as int) =~= block_views(blocks@));
    r
}

/// Every value given for `key` (compared without regard to ASCII case), in
/// order.
pub open spec fn option_values(dirs: Seq<DirectiveView>, key: Seq<char>) -> Seq<Seq<char>>
    decreases dirs.len(),
{
    if dirs.len() == 0 {
        Seq::empty()
    } else {
        let rest = option_values(dirs.drop_last(), key);
        if eq_ignore_case(dirs.last().keyword, key) {
            rest + dirs.last().values
        } else {
            rest
        }
    }
}

/// The first value given for `key`.
pub open spec fn option_value(dirs: Seq<DirectiveView>, key: Seq<char>) -> Option<Seq<char>> {
    let vs = option_values(dirs, key);
    if vs.len() > 0 {
        Some(vs[0])
    } else {
        None
    }
}

pub fn option_values_of(dirs: &Vec<Directive>, key: &[char]) -> (r: Vec<Vec<char>>)
    ensures
        views(r@) == option_values(directive_views(dirs@), key@),
{
    let mut r: Vec<Vec<char>> = Vec::new();
    let mut i: usize = 0;
    while i < dirs.len()
        invariant
            i <= dirs.len(),
            views(r@) == option_values(directive_views(dirs@).take(i as int), key@),
        decreases dirs.len() - i,
    {
        assert(directive_views(dirs@).take(i + 1).drop_last() =~= directive_views(dirs@).take(
            i as int,
        ));
        assert(directive_views(dirs@).take(i + 1).last() == dirs@[i as int]@);
        if eq_ignore_ascii_case(&dirs[i].keyword, key) {
            let vs = &dirs[i].values;
            let mut j: usize = 0;
            let ghost base = r@;
            while j < vs.len()
                invariant
                    j <= vs.len(),
                    views(r@) == views(base) + views(vs@).take(j as int),
                decreases vs.len() - j,
            {
                let c = vs[j].clone();
                assert(c@ =~= vs@[j as int]@);
                let ghost before = r@;
                r.push(c);
                assert(r@ =~= before.push(c));
                assert(views(r@) =~= views(before).push(c@));
                assert(views(vs@).take(j + 1) =~= views(vs@).take(j as int).push(vs@[j as int]@));
                j = j + 1;
            }
            assert(views(vs@).take(j as int) =~= views(vs@));
        }
        i = i + 1;
    }
    assert(directive_views(dirs@).take(i as int) =~= directive_views(dirs@));
    r
}

pub fn option_value_of(dirs: &Vec<Directive>, key: &[char]) -> (r: Option<Vec<char>>)
    ensures
        match r {
            Some(v) => option_value(directive_views(dirs@), key@) == Some(v@),
            None => option_value(directive_views(dirs@), key@) is None,
        },
{
    let mut vs = option_values_of(dirs, key);
    if vs.len() > 0 {
        let first = vs.swap_remove(0);
        Some(first)
    } else {
        None
    }
}

/// The jump hosts named by `ProxyJump` values: comma separated, trimmed,
/// blank entries left out.
pub open spec fn jump_hosts(values: Seq<Seq<char>>) -> Seq<Seq<char>>
    decreases values.len(),
{
    if values.len() == 0 {
        Seq::empty()
    } else {
        jump_hosts(values.drop_last()) + nonblank_trimmed(split(values.last(), ','))
    }
}

/// No piece of a split holds the separator.
pub(crate) proof fn lemma_split_state_without_sep(s: Seq<char>, c: char)
    ensures
        forall|i: int| 0 <= i < split_state(s, c).0.len() ==> !(#[trigger] split_state(s, c).0[i]).contains(c),
        !split_state(s, c).1.contains(c),
    decreases s.len(),
{
    if s.len() > 0 {
        lemma_split_state_without_sep(s.drop_last(), c);
        let (done, cur) = split_state(s.drop_last(), c);
        if s.last() != c {
            assert forall|x: char| cur.push(s.last()).contains(x) implies x != c by {
                let t = choose|t: int| 0 <= t < cur.push(s.last()).len() && cur.push(s.last())[t] == x;
                if t < cur.len() {
                    assert(cur[t] == x);
                }
            }
        }
    }
}

/// Text without the separator only extends the piece being read.
proof fn lemma_split_state_append(s: Seq<char>, t: Seq<char>, c: char)
    requires
        !t.contains(c),
    ensures
        split_state(s + t, c) == (split_state(s, c).0, split_state(s, c).1 + t),
    decreases t.len(),
{
    if t.len() == 0 {
        assert(s + t =~= s);
        assert(split_state(s, c).1 + t =~= split_state(s, c).1);
    } else {
        let t0 = t.drop_last();
        assert(!t0.contains(c)) by {
            if t0.contains(c) {
                let i = choose|i: int| 0 <= i < t0.len() && t0[i] == c;
                assert(t[i] == c);
            }
        }
        assert(t.last() != c) by {
            assert(t[t.len() - 1] == t.last());
        }
        lemma_split_state_append(s, t0, c);
        assert((s + t).drop_last() =~= s + t0);
        assert((s + t).last() == t.last());
        assert(split_state(s, c).1 + t0 + seq![t.last()] =~= split_state(s, c).1 + t);
    }
}

/// Trimmed, non-blank pieces without a character hold none of it.
pub(crate) proof fn lemma_nonblank_trimmed_without(pieces: Seq<Seq<char>>, c: char)
    requires
        forall|i: int| 0 <= i < pieces.len() ==> !(#[trigger] pieces[i]).contains(c),
    ensures
        forall|i: int|
            0 <= i < nonblank_trimmed(pieces).len() ==> !(#[trigger] nonblank_trimmed(pieces)[i]).contains(c)
                && nonblank_trimmed(pieces)[i].len() > 0,
    decreases pieces.len(),
{
    if pieces.len() > 0 {
        let p0 = pieces.drop_last();
        assert forall|i: int| 0 <= i < p0.len() implies !(#[trigger] p0[i]).contains(c) by {
            assert(p0[i] == pieces[i]);
        }
        lemma_nonblank_trimmed_without(p0, c);
        crate::text::lemma_trim_within(pieces.last(), c);
        assert(!pieces[pieces.len() - 1].contains(c));
        let rest = nonblank_trimmed(p0);
        let r = nonblank_trimmed(pieces);
        assert forall|i: int| 0 <= i < r.len() implies !(#[trigger] r[i]).contains(c) && r[i].len() > 0 by {
            if i < rest.len() {
                assert(r[i] == rest[i]);
            } else {
                assert(r[i] == crate::text::trim(pieces.last()));
            }
        }
    }
}

/// No jump host holds a comma, and none is blank.
pub proof fn law_jump_hosts_hold_no_commas(values: Seq<Seq<char>>)
    ensures
        forall|i: int|
            0 <= i < jump_hosts(values).len() ==> !(#[trigger] jump_hosts(values)[i]).contains(',')
                && jump_hosts(values)[i].len() > 0,
    decreases values.len(),
{
    if values.len() > 0 {
        law_jump_hosts_hold_no_commas(values.drop_last());
        lemma_split_state_without_sep(values.last(), ',');
        let pieces = split(values.last(), ',');
        let (done, cur) = split_state(values.last(), ',');
        assert forall|i: int| 0 <= i < pieces.len() implies !(#[trigger] pieces[i]).contains(',') by {
            if i < done.len() {
                assert(pieces[i] == done[i]);
            }
        }
        lemma_nonblank_trimmed_without(pieces, ',');
        let r = jump_hosts(values);
        let a = jump_hosts(values.drop_last());
        assert forall|i: int| 0 <= i < r.len() implies !(#[trigger] r[i]).contains(',') && r[i].len() > 0 by {
            if i < a.len() {
                assert(r[i] == a[i]);
            } else {
                assert(r[i] == nonblank_trimmed(pieces)[i - a.len()]);
            }
        }
    }
}

/// Splitting `a`, `c`, `b` at `c` gives `a` and `b`, where neither holds `c`.
pub(crate) proof fn lemma_split_pair(a: Seq<char>, b: Seq<char>, c: char)
    requires
        !a.contains(c),
        !b.contains(c),
    ensures
        split(a + seq![c] + b, c) == seq![a, b],
{
    let e = Seq::<char>::empty();
    lemma_split_state_append(e, a, c);
    assert(e + a =~= a);
    let a1 = a + seq![c];
    assert(a1.drop_last() =~= a);
    assert(a1.last() == c);
    assert(split_state(a1, c).0 =~= seq![a]);
    assert(split_state(a1, c).1 =~= e);
    lemma_split_state_append(a1, b, c);
    assert(e + b =~= b);
    assert(seq![a].push(b) =~= seq![a, b]);
}

/// Trimming two non-blank pieces keeps both, in order.
pub(crate) proof fn lemma_nonblank_trimmed_pair(a: Seq<char>, b: Seq<char>)
    requires
        crate::text::trim(a).len() > 0,
        crate::text::trim(b).len() > 0,
    ensures
        nonblank_trimmed(seq![a, b]) == seq![crate::text::trim(a), crate::text::trim(b)],
{
    let pieces = seq![a, b];
    assert(pieces.drop_last() =~= seq![a]);
    assert(seq![a].drop_last() =~= Seq::<Seq<char>>::empty());
    let one = nonblank_trimmed(seq![a]);
    assert(seq![a].last() == a);
    assert(nonblank_trimmed(Seq::<Seq<char>>::empty()) == Seq::<Seq<char>>::empty());
    assert(Seq::<Seq<char>>::empty().push(crate::text::trim(a)) =~= seq![crate::text::trim(a)]);
    assert(one =~= seq![crate::text::trim(a)]);
    assert(pieces.last() == b);
    assert(nonblank_trimmed(pieces) == one.push(crate::text::trim(b)));
    assert(one.push(crate::text::trim(b)) =~= seq![crate::text::trim(a), crate::text::trim(b)]);
}

/// A `ProxyJump` value `a,b` names the two jump hosts `a` and `b`, in that
/// order, each trimmed.
pub proof fn law_comma_separates_jump_hosts(a: Seq<char>, b: Seq<char>)
    requires
        !a.contains(','),
        !b.contains(','),
        crate::text::trim(a).len() > 0,
        crate::text::trim(b).len() > 0,
    ensures
        jump_hosts(seq![a + seq![','] + b]) == seq![crate::text::trim(a), crate::text::trim(b)],
{
    lemma_split_pair(a, b, ',');
    lemma_nonblank_trimmed_pair(a, b);
    let v = a + seq![','] + b;
    let vs = seq![v];
    assert(vs.drop_last() =~= Seq::<Seq<char>>::empty());
    assert(vs.last() == v);
    assert(jump_hosts(Seq::<Seq<char>>::empty()) == Seq::<Seq<char>>::empty());
    let pieces = seq![a, b];
    assert(split(v, ',') == pieces);
    assert(jump_hosts(vs) == Seq::<Seq<char>>::empty() + nonblank_trimmed(pieces));
    assert(Seq::<Seq<char>>::empty() + nonblank_trimmed(pieces) =~= nonblank_trimmed(pieces));
}

/// The values given for a keyword over two runs of directives are those of
/// the first run followed by those of the second.
pub proof fn law_option_values_concatenate(d1: Seq<DirectiveView>, d2: Seq<DirectiveView>, key: Seq<char>)
    ensures
        option_values(d1 + d2, key) == option_values(d1, key) + option_values(d2, key),
    decreases d2.len(),
{
    if d2.len() == 0 {
        assert(d1 + d2 =~= d1);
        assert(option_values(d1, key) + Seq::<Seq<char>>::empty() =~= option_values(d1, key));
    } else {
        law_option_values_concatenate(d1, d2.drop_last(), key);
        assert((d1 + d2).drop_last() =~= d1 + d2.drop_last());
        assert((d1 + d2).last() == d2.last());
        let a = option_values(d1, key);
        let b = option_values(d2.drop_last(), key);
        assert(a + b + d2.last().values =~= a + (b + d2.last().values));
    }
}

/// One directive gives its values for its own keyword, in any case, and
/// nothing for another.
pub proof fn law_one_directive_gives_its_values(d: DirectiveView, key: Seq<char>)
    ensures
        option_values(seq![d], key) == if eq_ignore_case(d.keyword, key) {
            d.values
        } else {
            Seq::<Seq<char>>::empty()
        },
{
    assert(seq![d].drop_last() =~= Seq::<DirectiveView>::empty());
    assert(seq![d].last() == d);
    assert(option_values(Seq::<DirectiveView>::empty(), key) == Seq::<Seq<char>>::empty());
    assert(Seq::<Seq<char>>::empty() + d.values =~= d.values);
}

/// The first value obtained for a setting wins: directives read later do
/// not change it.
pub proof fn law_first_setting_wins(d1: Seq<DirectiveView>, d2: Seq<DirectiveView>, key: Seq<char>)
    requires
        option_values(d1, key).len() > 0,
    ensures
        option_value(d1 + d2, key) == option_value(d1, key),
{
    law_option_values_concatenate(d1, d2, key);
}

/// A host's `HostName`, `User` and `Port` come from the first directive that
/// gives them; `IdentityFile` and `ProxyJump` gather the values of every
/// directive, in order.
pub proof fn law_resolve_first_and_gathered(d: DirectiveView, rest: Seq<DirectiveView>)
    requires
        d.values.len() > 0,
    ensures
        eq_ignore_case(d.keyword, seq!['H', 'o', 's', 't', 'N', 'a', 'm', 'e']) ==> resolve(
            seq![d] + rest,
        ).host_name == Some(d.values[0]),
        eq_ignore_case(d.keyword, seq!['U', 's', 'e', 'r']) ==> resolve(seq![d] + rest).user == Some(
            d.values[0],
        ),
        eq_ignore_case(d.keyword, seq!['P', 'o', 'r', 't']) ==> resolve(seq![d] + rest).port
            == parse_u16(d.values[0]),
        resolve(seq![d] + rest).identity_files == resolve(seq![d]).identity_files + resolve(
            rest,
        ).identity_files,
        resolve(seq![d] + rest).proxy_jump == resolve(seq![d]).proxy_jump + resolve(rest).proxy_jump,
{
    let one = seq![d];
    law_one_directive_gives_its_values(d, seq!['H', 'o', 's', 't', 'N', 'a', 'm', 'e']);
    law_one_directive_gives_its_values(d, seq!['U', 's', 'e', 'r']);
    law_one_directive_gives_its_values(d, seq!['P', 'o', 'r', 't']);
    law_option_values_concatenate(one, rest, seq!['H', 'o', 's', 't', 'N', 'a', 'm', 'e']);
    law_option_values_concatenate(one, rest, seq!['U', 's', 'e', 'r']);
    law_option_values_concatenate(one, rest, seq!['P', 'o', 'r', 't']);
    law_option_values_concatenate(
        one,
        rest,
        seq!['I', 'd', 'e', 'n', 't', 'i', 't', 'y', 'F', 'i', 'l', 'e'],
    );
    let pj = seq!['P', 'r', 'o', 'x', 'y', 'J', 'u', 'm', 'p'];
    law_option_values_concatenate(one, rest, pj);
    lemma_jump_hosts_concatenate(option_values(one, pj), option_values(rest, pj));
}

/// The jump hosts of two runs of values are those of each, in order.
proof fn lemma_jump_hosts_concatenate(v1: Seq<Seq<char>>, v2: Seq<Seq<char>>)
    ensures
        jump_hosts(v1 + v2) == jump_hosts(v1) + jump_hosts(v2),
    decreases v2.len(),
{
    if v2.len() == 0 {
        assert(v1 + v2 =~= v1);
        assert(jump_hosts(v1) + Seq::<Seq<char>>::empty() =~= jump_hosts(v1));
    } else {
        lemma_jump_hosts_concatenate(v1, v2.drop_last());
        assert((v1 + v2).drop_last() =~= v1 + v2.drop_last());
        assert((v1 + v2).last() == v2.last());
        let x = nonblank_trimmed(split(v2.last(), ','));
        assert(jump_hosts(v1) + jump_hosts(v2.drop_last()) + x =~= jump_hosts(v1) + (jump_hosts(
            v2.drop_last(),
        ) + x));
    }
}

/// The directives that apply to a host from two runs of blocks are those
/// of the first run followed by those of the second: an earlier block's
/// settings come first, and so win.
pub proof fn law_effective_directives_concatenate(
    b1: Seq<HostBlockView>,
    b2: Seq<HostBlockView>,
    alias: Seq<char>,
)
    ensures
        effective_directives(b1 + b2, alias) == effective_directives(b1, alias) + effective_directives(
            b2,
            alias,
        ),
    decreases b2.len(),
{
    if b2.len() == 0 {
        assert(b1 + b2 =~= b1);
        assert(effective_directives(b1, alias) + Seq::<DirectiveView>::empty() =~= effective_directives(
            b1,
            alias,
        ));
    } else {
        law_effective_directives_concatenate(b1, b2.drop_last(), alias);
        assert((b1 + b2).drop_last() =~= b1 + b2.drop_last());
        assert((b1 + b2).last() == b2.last());
        let x = b2.last().directives;
        let e1 = effective_directives(b1, alias);
        let e2 = effective_directives(b2.drop_last(), alias);
        assert(e1 + e2 + x =~= e1 + (e2 + x));
    }
}

/// The jump hosts resolved for a host hold no comma.
pub proof fn law_resolved_jump_hosts_hold_no_commas(dirs: Seq<DirectiveView>)
    ensures
        forall|i: int|
            0 <= i < resolve(dirs).proxy_jump.len() ==> !(#[trigger] resolve(dirs).proxy_jump[i]).contains(','),
{
    law_jump_hosts_hold_no_commas(
        option_values(dirs, seq!['P', 'r', 'o', 'x', 'y', 'J', 'u', 'm', 'p']),
    );
}

/// The settings read from a host's effective directives.
pub open spec fn resolve(dirs: Seq<DirectiveView>) -> ResolvedView {
    ResolvedView {
        host_name: option_value(dirs, seq!['H', 'o', 's', 't', 'N', 'a', 'm', 'e']),
        user: option_value(dirs, seq!['U', 's', 'e', 'r']),
        port: match option_value(dirs, seq!['P', 'o', 'r', 't']) {
            Some(p) => parse_u16(p),
            None => None,
        },
        identity_files: option_values(
            dirs,
            seq!['I', 'd', 'e', 'n', 't', 'i', 't', 'y', 'F', 'i', 'l', 'e'],
        ),
        proxy_jump: jump_hosts(option_values(dirs, seq!['P', 'r', 'o', 'x', 'y', 'J', 'u', 'm', 'p'])),
    }
}

fn to_strings(v: &Vec<Vec<char>>) -> (r: Vec<String>)
    ensures
        crate::text::string_views(r@) == views(v@),
{
    let mut r: Vec<String> = Vec::new();
    let mut i: usize = 0;
    while i < v.len()
        invariant
            i <= v.len(),
            crate::text::string_views(r@) == views(v@).take(i as int),
        decreases v.len() - i,
    {
        let s = string_from(&v[i]);
        let ghost before = r@;
        r.push(s);
        assert(r@ =~= before.push(s));
        assert(crate::text::string_views(r@) =~= crate::text::string_views(before).push(s@));
        assert(views(v@).take(i + 1) =~= views(v@).take(i as int).push(v@[i as int]@));
        i = i + 1;
    }
    assert(views(v@).take(i as int) =~= views(v@));
    r
}

fn opt_string(v: Option<Vec<char>>) -> (r: Option<String>)
    ensures
        opt_view(r) == match v {
            Some(c) => Some(c@),
            None => None,
        },
{
    match v {
        Some(c) => Some(string_from(&c)),
        None => None,
    }
}

/// Reads the settings of a host from its effective directives.
pub fn resolve_host(dirs: &Vec<Directive>) -> (r: ResolvedHost)
    ensures
        r@ == resolve(directive_views(dirs@)),
{
    let host_name_key = chars_of("HostName");
    let user_key = chars_of("User");
    let port_key = chars_of("Port");
    let identity_key = chars_of("IdentityFile");
    let jump_key = chars_of("ProxyJump");
    proof {
        reveal_strlit("HostName");
        reveal_strlit("User");
        reveal_strlit("Port");
        reveal_strlit("IdentityFile");
        reveal_strlit("ProxyJump");
    }
    assert(host_name_key@ =~= seq!['H', 'o', 's', 't', 'N', 'a', 'm', 'e']);
    assert(user_key@ =~= seq!['U', 's', 'e', 'r']);
    assert(port_key@ =~= seq!['P', 'o', 'r', 't']);
    assert(identity_key@ =~= seq!['I', 'd', 'e', 'n', 't', 'i', 't', 'y', 'F', 'i', 'l', 'e']);
    assert(jump_key@ =~= seq!['P', 'r', 'o', 'x', 'y', 'J', 'u', 'm', 'p']);
    let host_name = opt_string(option_value_of(dirs, &host_name_key));
    let user = opt_string(option_value_of(dirs, &user_key));
    let port = match option_value_of(dirs, &port_key) {
        Some(p) => parse_u16_chars(&p),
        None => None,
    };
    let identity = option_values_of(dirs, &identity_key);
    let jumps = option_values_of(dirs, &jump_key);
    let mut hops: Vec<Vec<char>> = Vec::new();
    let mut i: usize = 0;
    while i < jumps.len()
        invariant
            i <= jumps.len(),
            views(hops@) == jump_hosts(views(jumps@).take(i as int)),
        decreases jumps.len() - i,
    {
        assert(views(jumps@).take(i + 1).drop_last() =~= views(jumps@).take(i as int));
        assert(views(jumps@).take(i + 1).last() == jumps@[i as int]@);
        let pieces = split_chars(&jumps[i], ',');
        let entries = nonblank_trimmed_chars(&pieces);
        let mut j: usize = 0;
        let ghost base = hops@;
        while j < entries.len()
            invariant
                j <= entries.len(),
                views(hops@) == views(base) + views(entries@).take(j as int),
            decreases entries.len() - j,
        {
            let c = entries[j].clone();
            assert(c@ =~= entries@[j as int]@);
            let ghost before = hops@;
            hops.push(c);
            assert(hops@ =~= before.push(c));
            assert(views(hops@) =~= views(before).push(c@));
            assert(views(entries@).take(j + 1) =~= views(entries@).take(j as int).push(
                entries@[j as int]@,
            ));
            j = j + 1;
        }
        assert(views(entries@).take(j as int) =~= views(entries@));
        i = i + 1;
    }
    assert(views(jumps@).take(i as int) =~= views(jumps@));
    ResolvedHost {
        host_name,
        user,
        port,
        identity_files: to_strings(&identity),
        proxy_jump: to_strings(&hops),
    }
}

} // verus!
