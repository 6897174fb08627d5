//! What the program around the browser decides: double clicks, the summary
//! of what `ssh` wrote to its error stream, the part of that stream that is
//! kept, and copying text through the terminal.
use vstd::prelude::*;

use base64::Engine;

use crate::text::{
    append,
    chars_of,
    join,
    join_chars,
    lines,
    lines_chars,
    string_from,
    trim,
    trim_chars,
    views,
};
use crate::app::ConnectionFailure;
use crate::ssh::is_ssh_error_exit_code;
use crate::tree::nonempty_fields;

verus! {

/// How close two clicks on one host must be to open it, in milliseconds.
pub const DOUBLE_CLICK_INTERVAL_MS: u64 = 500;

/// How many bytes of `ssh`'s error stream are kept.
pub const MAX_CAPTURED_STDERR: usize = 65536;

/// A click on a node at `clicked_at` (milliseconds), after the click that
/// was kept: whether it completes a double click (the kept click was on the
/// same node, at most the interval before), and the click kept afterwards
/// (none after a double click).
pub open spec fn click_step(previous: Option<(u64, usize)>, clicked_at: u64, node_id: usize) -> (
    bool,
    Option<(u64, usize)>,
) {
    let double = previous matches Some(p) && p.1 == node_id && (if clicked_at >= p.0 {
        clicked_at - p.0
    } else {
        0
    }) <= DOUBLE_CLICK_INTERVAL_MS;
    (double, if double {
        None
    } else {
        Some((clicked_at, node_id))
    })
}

/// Registers a click on a host; whether it completes a double click.
pub fn register_host_click(previous: &mut Option<(u64, usize)>, clicked_at: u64, node_id: usize) -> (r:
    bool)
    ensures
        (r, *final(previous)) == click_step(*old(previous), clicked_at, node_id),
{
    let is_double_click = match *previous {
        Some((previous_at, previous_node)) => previous_node == node_id && clicked_at.saturating_sub(
            previous_at,
        ) <= DOUBLE_CLICK_INTERVAL_MS,
        None => false,
    };
    *previous = if is_double_click {
        None
    } else {
        Some((clicked_at, node_id))
    };
    is_double_click
}

// ---------------------------------------------------------------------------
// The error stream of `ssh`
// ---------------------------------------------------------------------------

pub open spec fn sat_add(a: int, b: int) -> int {
    if a + b > usize::MAX {
        usize::MAX as int
    } else {
        a + b
    }
}

/// The bytes kept after a chunk was read: as many of the oldest as needed
/// to stay within the limit are dropped, then the chunk is added.
pub open spec fn captured_after(captured: Seq<u8>, chunk: Seq<u8>) -> Seq<u8> {
    let total = sat_add(captured.len() as int, chunk.len() as int);
    let overflow = if total > MAX_CAPTURED_STDERR {
        total - MAX_CAPTURED_STDERR
    } else {
        0
    };
    let dropped = if overflow < captured.len() {
        overflow
    } else {
        captured.len() as int
    };
    captured.skip(dropped) + chunk
}

/// Keeps a chunk read from the error stream, within the limit.
pub fn capture_chunk(captured: &mut Vec<u8>, chunk: &[u8])
    ensures
        final(captured)@ == captured_after(old(captured)@, chunk@),
{
    let overflow = captured.len().saturating_add(chunk.len()).saturating_sub(MAX_CAPTURED_STDERR);
    let dropped = if overflow < captured.len() {
        overflow
    } else {
        captured.len()
    };
    let mut kept: Vec<u8> = Vec::new();
    let mut i: usize = dropped;
    while i < captured.len()
        invariant
            dropped <= i <= captured.len(),
            kept@ == captured@.subrange(dropped as int, i as int),
        decreases captured.len() - i,
    {
        kept.push(captured[i]);
        i = i + 1;
    }
    let mut j: usize = 0;
    while j < chunk.len()
        invariant
            j <= chunk.len(),
            kept@ == captured@.skip(dropped as int) + chunk@.take(j as int),
        decreases chunk.len() - j,
    {
        kept.push(chunk[j]);
        assert(chunk@.take(j + 1) =~= chunk@.take(j as int).push(chunk[j as int]));
        j = j + 1;
    }
    assert(chunk@.take(j as int) =~= chunk@);
    *captured = kept;
}

/// What `strip_ansi_escapes::strip` returns for some bytes.
pub uninterp spec fn ansi_stripped(data: Seq<u8>) -> Seq<u8>;

/// Trusted: calls `strip_ansi_escapes::strip`, which feeds the bytes
/// through a VT parser and keeps the printed characters and line breaks;
/// its result depends on the bytes alone. Nothing else is claimed of it.
#[verifier::external_body]
fn strip_ansi(data: &[u8]) -> (r: Vec<u8>)
    ensures
        r@ == ansi_stripped(data@),
{
    strip_ansi_escapes::strip(data)
}

/// What `String::from_utf8_lossy` gives for some bytes.
pub uninterp spec fn utf8_lossy(bytes: Seq<u8>) -> Seq<char>;

/// Trusted: calls `String::from_utf8_lossy`, which decodes UTF-8 and puts
/// U+FFFD in place of each invalid sequence; its result depends on the
/// bytes alone. Nothing else is claimed of it.
#[verifier::external_body]
fn decode_utf8_lossy(bytes: &[u8]) -> (r: String)
    ensures
        r@ == utf8_lossy(bytes@),
{
    String::from_utf8_lossy(bytes).into_owned()
}

/// A control character (general category Cc).
pub open spec fn is_control(c: char) -> bool {
    c <= '\u{1f}' || ('\u{7f}' <= c && c <= '\u{9f}')
}

/// A line without its control characters (tabs kept), trimmed.
pub open spec fn clean_line(line: Seq<char>) -> Seq<char> {
    trim(line.filter(|c: char| !is_control(c) || c == '\t'))
}

/// A line of at most 180 characters; a longer one is cut to 177 and
/// marked with `...`.
pub open spec fn shorten(line: Seq<char>) -> Seq<char> {
    if line.len() > 180 {
        line.take(177) + seq!['.', '.', '.']
    } else {
        line
    }
}

pub open spec fn no_message() -> Seq<char> {
    "SSH exited without an error message."@
}

/// The last five non-empty lines, cleaned and shortened.
pub open spec fn summary_lines(text: Seq<char>) -> Seq<Seq<char>> {
    let ls = nonempty_fields(lines(text).map_values(|l: Seq<char>| clean_line(l)));
    let last = if ls.len() > 5 {
        ls.skip(ls.len() - 5)
    } else {
        ls
    };
    last.map_values(|l: Seq<char>| shorten(l))
}

/// The message shown when `ssh` failed, from what it wrote to its error
/// stream.
pub open spec fn stderr_summary(captured: Seq<u8>) -> Seq<char> {
    summary_of(utf8_lossy(ansi_stripped(captured)))
}

/// The summary of a decoded error text: its summary lines joined by line
/// breaks, or a fixed message where none is left.
pub open spec fn summary_of(text: Seq<char>) -> Seq<char> {
    let ls = summary_lines(text);
    if ls.len() == 0 {
        no_message()
    } else {
        join(ls, seq!['\n'])
    }
}

fn clean_line_chars(line: &Vec<char>) -> (r: Vec<char>)
    ensures
        r@ == clean_line(line@),
{
    let mut kept: Vec<char> = Vec::new();
    let mut i: usize = 0;
    while i < line.len()
        invariant
            i <= line.len(),
            kept@ == line@.take(i as int).filter(|c: char| !is_control(c) || c == '\t'),
        decreases line.len() - i,
    {
        let c = line[i];
        proof {
            reveal(Seq::filter);
        }
        assert(line@.take(i + 1).drop_last() =~= line@.take(i as int));
        if !(c <= '\u{1f}' || ('\u{7f}' <= c && c <= '\u{9f}')) || c == '\t' {
            kept.push(c);
        }
        i = i + 1;
    }
    assert(line@.take(i as int) =~= line@);
    trim_chars(&kept)
}

fn shorten_chars(line: Vec<char>) -> (r: Vec<char>)
    ensures
        r@ == shorten(line@),
{
    if line.len() > 180 {
        let mut cut: Vec<char> = Vec::new();
        let mut i: usize = 0;
        while i < 177
            invariant
                i <= 177,
                line.len() > 180,
                cut@ == line@.take(i as int),
            decreases 177 - i,
        {
            cut.push(line[i]);
            assert(line@.take(i + 1) =~= line@.take(i as int).push(line@[i as int]));
            i = i + 1;
        }
        cut.push('.');
        cut.push('.');
        cut.push('.');
        assert(cut@ =~= line@.take(177) + seq!['.', '.', '.']);
        cut
    } else {
        line
    }
}

/// Sums up what `ssh` wrote to its error stream: escape sequences and
/// control characters dropped, blank lines left out, the last five lines
/// kept, each cut to 180 characters.
pub fn summarize_stderr(captured: &[u8]) -> (r: String)
    ensures
        r@ == stderr_summary(captured@),
{
    let stripped = strip_ansi(captured);
    let text = decode_utf8_lossy(stripped.as_slice());
    summary_of_text(text.as_str())
}

/// Sums up an error text that is already decoded, with its escape
/// sequences gone: control characters dropped, blank lines left out, the
/// last five lines kept, each cut to 180 characters.
pub fn summary_of_text(text: &str) -> (r: String)
    ensures
        r@ == summary_of(text@),
{
    let all = lines_chars(&chars_of(text));
    let ghost cleaned = views(all@).map_values(|l: Seq<char>| clean_line(l));
    let mut kept: Vec<Vec<char>> = Vec::new();
    let mut i: usize = 0;
    while i < all.len()
        invariant
            i <= all.len(),
            cleaned == views(all@).map_values(|l: Seq<char>| clean_line(l)),
            views(kept@) == nonempty_fields(cleaned.take(i as int)),
        decreases all.len() - i,
    {
        let line = clean_line_chars(&all[i]);
        assert(cleaned.take(i + 1).drop_last() =~= cleaned.take(i as int));
        assert(cleaned.take(i + 1).last() == line@);
        if line.len() > 0 {
            let ghost before = views(kept@);
            kept.push(line);
            assert(views(kept@) =~= before.push(cleaned[i as int]));
        }
        i = i + 1;
    }
    assert(cleaned.take(i as int) =~= cleaned);
    assert(cleaned =~= lines(text@).map_values(|l: Seq<char>| clean_line(l)));
    if kept.len() == 0 {
        let r = crate::text::owned("SSH exited without an error message.");
        return r;
    }
    let ghost ls = views(kept@);
    let start: usize = if kept.len() > 5 {
        kept.len() - 5
    } else {
        0
    };
    let ghost last = if ls.len() > 5 {
        ls.skip(ls.len() - 5)
    } else {
        ls
    };
    assert(last =~= ls.skip(start as int));
    let mut shown: Vec<Vec<char>> = Vec::new();
    let mut k: usize = start;
    while k < kept.len()
        invariant
            start <= k <= kept.len(),
            ls == views(kept@),
            views(shown@) == ls.subrange(start as int, k as int).map_values(|l: Seq<char>| shorten(l)),
        decreases kept.len() - k,
    {
        let line = kept[k].clone();
        let short = shorten_chars(line);
        let ghost before = views(shown@);
        shown.push(short);
        assert(views(shown@) =~= before.push(shorten(ls[k as int])));
        assert(ls.subrange(start as int, k + 1).map_values(|l: Seq<char>| shorten(l)) =~= ls.subrange(
            start as int,
            k as int,
        ).map_values(|l: Seq<char>| shorten(l)).push(shorten(ls[k as int])));
        k = k + 1;
    }
    assert(ls.subrange(start as int, k as int) =~= last);
    let mut sep: Vec<char> = Vec::new();
    sep.push('\n');
    assert(sep@ =~= seq!['\n']);
    let joined = join_chars(&shown, &sep);
    string_from(&joined)
}

/// What an `ssh` run that exited left to show: nothing when it exited with
/// a code of its remote command, else the failure with the summary of its
/// error stream (killed by a signal, it has no code).
pub fn ssh_exit_failure(alias: &str, exit_status: Option<i32>, captured: &[u8]) -> (r: Option<
    ConnectionFailure,
>)
    ensures
        match exit_status {
            Some(code) if code != 255 => r is None,
            _ => r matches Some(f) && f.alias@ == alias@ && f.message@ == stderr_summary(captured@)
                && f.exit_status == exit_status,
        },
{
    match exit_status {
        Some(code) => {
            if !is_ssh_error_exit_code(code as i64) {
                return None;
            }
        },
        None => {},
    }
    Some(
        ConnectionFailure {
            alias: crate::text::owned(alias),
            message: summarize_stderr(captured),
            exit_status,
        },
    )
}

/// A second click on the same node, no later than the interval after a
/// first click that did not complete a double click, completes one; the
/// click after that starts over.
pub proof fn law_second_click_opens(previous: Option<(u64, usize)>, t1: u64, t2: u64, node_id: usize)
    requires
        !click_step(previous, t1, node_id).0,
        t1 <= t2 <= t1 + DOUBLE_CLICK_INTERVAL_MS,
    ensures
        click_step(click_step(previous, t1, node_id).1, t2, node_id) == (true, None::<(u64, usize)>),
{
}

/// A click on another node, or one later than the interval, never
/// completes a double click.
pub proof fn law_other_clicks_do_not_open(t1: u64, n1: usize, t2: u64, n2: usize)
    requires
        n1 != n2 || t2 > t1 + DOUBLE_CLICK_INTERVAL_MS,
    ensures
        !click_step(Some((t1, n1)), t2, n2).0,
{
}

/// With chunks no larger than the limit, what is kept is the last bytes
/// read: all of them while they fit, else exactly the limit.
pub proof fn law_capture_keeps_the_last_bytes(captured: Seq<u8>, chunk: Seq<u8>)
    requires
        captured.len() <= MAX_CAPTURED_STDERR,
        chunk.len() <= MAX_CAPTURED_STDERR,
    ensures
        captured_after(captured, chunk).len() == if captured.len() + chunk.len()
            <= MAX_CAPTURED_STDERR {
            (captured.len() + chunk.len()) as int
        } else {
            MAX_CAPTURED_STDERR as int
        },
        captured_after(captured, chunk) == (captured + chunk).skip(
            captured.len() + chunk.len() - captured_after(captured, chunk).len(),
        ),
{
    let r = captured_after(captured, chunk);
    let total = captured.len() + chunk.len();
    let overflow = if total > MAX_CAPTURED_STDERR {
        total - MAX_CAPTURED_STDERR
    } else {
        0
    };
    assert(r == captured.skip(overflow) + chunk);
    assert(r =~= (captured + chunk).skip(overflow));
}

proof fn lemma_nonempty_fields(fs: Seq<Seq<char>>)
    ensures
        nonempty_fields(fs).len() <= fs.len(),
        forall|i: int|
            0 <= i < nonempty_fields(fs).len() ==> (#[trigger] nonempty_fields(fs)[i]).len() > 0,
    decreases fs.len(),
{
    if fs.len() > 0 {
        lemma_nonempty_fields(fs.drop_last());
    }
}

/// The message shown for a failed `ssh` is never empty; it is made of at
/// most five lines, none empty and none longer than 180 characters.
pub proof fn law_summary_is_short(captured: Seq<u8>)
    ensures
        stderr_summary(captured).len() > 0,
        summary_lines(utf8_lossy(ansi_stripped(captured))).len() <= 5,
        forall|i: int|
            0 <= i < summary_lines(utf8_lossy(ansi_stripped(captured))).len() ==> 0 < (
            #[trigger] summary_lines(utf8_lossy(ansi_stripped(captured)))[i]).len() <= 180,
{
    let text = utf8_lossy(ansi_stripped(captured));
    let ls = nonempty_fields(lines(text).map_values(|l: Seq<char>| clean_line(l)));
    lemma_nonempty_fields(lines(text).map_values(|l: Seq<char>| clean_line(l)));
    let last = if ls.len() > 5 {
        ls.skip(ls.len() - 5)
    } else {
        ls
    };
    assert forall|i: int| 0 <= i < last.len() implies (#[trigger] last[i]).len() > 0 by {
        if ls.len() > 5 {
            assert(last[i] == ls[i + ls.len() - 5]);
        }
    }
    let out = summary_lines(text);
    assert forall|i: int| 0 <= i < out.len() implies 0 < (#[trigger] out[i]).len() <= 180 by {
        assert(out[i] == shorten(last[i]));
    }
    if out.len() > 0 {
        lemma_join_nonempty(out, seq!['\n']);
    } else {
        assert(no_message().len() > 0) by {
            reveal_strlit("SSH exited without an error message.");
        }
    }
}

proof fn lemma_join_nonempty(parts: Seq<Seq<char>>, sep: Seq<char>)
    requires
        parts.len() > 0,
        parts.last().len() > 0,
    ensures
        join(parts, sep).len() > 0,
{
}

// ---------------------------------------------------------------------------
// Copying through the terminal
// ---------------------------------------------------------------------------

/// What `base64::engine::general_purpose::STANDARD.encode` returns for the
/// UTF-8 bytes of a text.
pub uninterp spec fn base64_standard(text: Seq<char>) -> Seq<char>;

/// Trusted: calls `STANDARD.encode` of the base64 crate (standard alphabet,
/// padded) on the text's bytes; its result depends on them alone. The
/// encoder panics only when the encoded length overflows `usize`, which the
/// bound on the text rules out. Nothing else is claimed of the result.
#[verifier::external_body]
fn encode_base64(text: &str) -> (r: String)
    requires
        text@.len() <= usize::MAX / 8,
    ensures
        r@ == base64_standard(text@),
{
    base64::engine::general_purpose::STANDARD.encode(text)
}

/// The OSC 52 sequence that asks the terminal to put a text on the
/// clipboard.
pub open spec fn osc52_of(text: Seq<char>) -> Seq<char> {
    seq!['\u{1b}', ']', '5', '2', ';', 'c', ';'] + base64_standard(text) + seq!['\u{1b}', '\\']
}

pub fn osc52_clipboard_sequence(text: &str) -> (r: String)
    requires
        text@.len() <= usize::MAX / 8,
    ensures
        r@ == osc52_of(text@),
{
    let encoded = encode_base64(text);
    let mut out: Vec<char> = Vec::new();
    out.push('\u{1b}');
    out.push(']');
    out.push('5');
    out.push('2');
    out.push(';');
    out.push('c');
    out.push(';');
    append(&mut out, &chars_of(encoded.as_str()));
    out.push('\u{1b}');
    out.push('\\');
    assert(out@ =~= osc52_of(text@));
    string_from(&out)
}

} // verus!
