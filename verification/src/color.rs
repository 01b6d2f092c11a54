//! ANSI styling for human-facing entry output.
use vstd::prelude::*;

use crate::text::{
    chars_of, ends_with, find, find_exec, has_char, has_prefix, has_suffix, join, lemma_differ_at,
    lemma_find_from_facts, lines, lines_of, matches_at, starts_with, string_of, sub_chars, views,
};

verus! {

/// When to emit ANSI color codes.
#[derive(Debug, Clone, Copy, PartialEq, Eq, Structural)]
pub enum ColorChoice {
    /// Color only on a terminal when `NO_COLOR` is unset.
    Auto,
    /// Always color.
    Always,
    /// Never color.
    Never,
}

/// Apply the configured TTY and `NO_COLOR` policy.
pub fn should_colorize(choice: ColorChoice, stdout_is_tty: bool, no_color_set: bool) -> (r: bool)
    ensures
        r == match choice {
            ColorChoice::Never => false,
            ColorChoice::Always => true,
            ColorChoice::Auto => stdout_is_tty && !no_color_set,
        },
{
    match choice {
        ColorChoice::Never => false,
        ColorChoice::Always => true,
        ColorChoice::Auto => stdout_is_tty && !no_color_set,
    }
}

/// The escape character that starts every ANSI code.
pub open spec fn esc() -> char {
    '\u{1b}'
}

/// `ESC[1;36m`: bold cyan.
pub open spec fn bold_cyan() -> Seq<char> {
    seq![esc(), '[', '1', ';', '3', '6', 'm']
}

/// `ESC[1m`: bold.
pub open spec fn bold() -> Seq<char> {
    seq![esc(), '[', '1', 'm']
}

/// `ESC[0m`: reset.
pub open spec fn reset() -> Seq<char> {
    seq![esc(), '[', '0', 'm']
}

/// A `**label:**` line with the label, up to and including the first `":**"`,
/// wrapped in bold; `None` for other lines.
pub open spec fn bold_label_spec(line: Seq<char>) -> Option<Seq<char>> {
    if !starts_with(line, seq!['*', '*']) {
        None
    } else {
        match find(line, seq![':', '*', '*']) {
            Some(k) => Some(
                bold() + line.subrange(0, k + 3) + reset() + line.subrange(k + 3, line.len() as int),
            ),
            None => None,
        }
    }
}

/// One styled line: a heading in bold cyan, a field label in bold, anything
/// else unchanged.
pub open spec fn style_line(line: Seq<char>) -> Seq<char> {
    if starts_with(line, seq!['#', '#', ' ']) {
        bold_cyan() + line + reset()
    } else {
        match bold_label_spec(line) {
            Some(s) => s,
            None => line,
        }
    }
}

/// The styled lines of `raw` joined by newlines, with a final newline when
/// `raw` ends with one.
pub open spec fn colorize_spec(raw: Seq<char>) -> Seq<char> {
    join(Seq::new(lines(raw).len(), |i: int| style_line(lines(raw)[i])), seq!['\n']) + (if ends_with(
        raw,
        seq!['\n'],
    ) {
        seq!['\n']
    } else {
        seq![]
    })
}


/// `s` with every bold-cyan, bold and reset code removed.
pub open spec fn strip_styles(s: Seq<char>) -> Seq<char>
    decreases s.len(),
{
    if s.len() == 0 {
        seq![]
    } else if starts_with(s, bold_cyan()) {
        strip_styles(s.subrange(7, s.len() as int))
    } else if starts_with(s, bold()) {
        strip_styles(s.subrange(4, s.len() as int))
    } else if starts_with(s, reset()) {
        strip_styles(s.subrange(4, s.len() as int))
    } else {
        seq![s[0]] + strip_styles(s.subrange(1, s.len() as int))
    }
}

/// Text without escape characters passes through unchanged.
proof fn lemma_strip_plain(x: Seq<char>, t: Seq<char>)
    requires
        !has_char(x, esc()),
    ensures
        strip_styles(x + t) == x + strip_styles(t),
    decreases x.len(),
{
    if x.len() == 0 {
        assert(x + t =~= t);
    } else {
        let s = x + t;
        assert(s[0] == x[0]);
        assert(x[0] != esc());
        lemma_differ_at(s, bold_cyan(), 0);
        lemma_differ_at(s, bold(), 0);
        lemma_differ_at(s, reset(), 0);
        assert(s.subrange(1, s.len() as int) =~= x.drop_first() + t);
        assert(!has_char(x.drop_first(), esc())) by {
            if has_char(x.drop_first(), esc()) {
                let j = choose|j: int| 0 <= j < x.drop_first().len() && x.drop_first()[j] == esc();
                assert(x[j + 1] == esc());
            }
        }
        lemma_strip_plain(x.drop_first(), t);
        assert(seq![x[0]] + (x.drop_first() + strip_styles(t)) =~= x + strip_styles(t));
    }
}

/// A style code disappears.
proof fn lemma_strip_code(code: Seq<char>, t: Seq<char>)
    requires
        code == bold_cyan() || code == bold() || code == reset(),
    ensures
        strip_styles(code + t) == strip_styles(t),
{
    let s = code + t;
    assert(s.subrange(0, code.len() as int) =~= code);
    assert(s.subrange(code.len() as int, s.len() as int) =~= t);
    if code == bold() {
        lemma_differ_at(s, bold_cyan(), 3);
    } else if code == reset() {
        lemma_differ_at(s, bold_cyan(), 2);
        lemma_differ_at(s, bold(), 2);
    }
}

/// Stripping a styled line gives the line back.
proof fn lemma_strip_style_line(l: Seq<char>, t: Seq<char>)
    requires
        !has_char(l, esc()),
    ensures
        strip_styles(style_line(l) + t) == l + strip_styles(t),
{
    if starts_with(l, seq!['#', '#', ' ']) {
        assert(style_line(l) + t =~= bold_cyan() + (l + (reset() + t)));
        lemma_strip_code(bold_cyan(), l + (reset() + t));
        lemma_strip_plain(l, reset() + t);
        lemma_strip_code(reset(), t);
    } else {
        match bold_label_spec(l) {
            Some(x) => {
                let k = find(l, seq![':', '*', '*'])->0;
                lemma_find_from_facts(l, seq![':', '*', '*'], 0);
                let a = l.subrange(0, k + 3);
                let b = l.subrange(k + 3, l.len() as int);
                assert(a + b =~= l);
                assert(!has_char(a, esc())) by {
                    if has_char(a, esc()) {
                        let j = choose|j: int| 0 <= j < a.len() && a[j] == esc();
                        assert(l[j] == esc());
                    }
                }
                assert(!has_char(b, esc())) by {
                    if has_char(b, esc()) {
                        let j = choose|j: int| 0 <= j < b.len() && b[j] == esc();
                        assert(l[k + 3 + j] == esc());
                    }
                }
                assert(style_line(l) + t =~= bold() + (a + (reset() + (b + t))));
                lemma_strip_code(bold(), a + (reset() + (b + t)));
                lemma_strip_plain(a, reset() + (b + t));
                lemma_strip_code(reset(), b + t);
                lemma_strip_plain(b, t);
                assert(a + (b + strip_styles(t)) =~= l + strip_styles(t));
            },
            None => {
                lemma_strip_plain(l, t);
            },
        }
    }
}

/// Stripping styled lines joined by newlines gives the lines joined by newlines.
proof fn lemma_strip_styled_join(ls: Seq<Seq<char>>, t: Seq<char>)
    requires
        forall|i: int| 0 <= i < ls.len() ==> !has_char(#[trigger] ls[i], esc()),
    ensures
        strip_styles(join(Seq::new(ls.len(), |i: int| style_line(ls[i])), seq!['\n']) + t) == join(
            ls,
            seq!['\n'],
        ) + strip_styles(t),
    decreases ls.len(),
{
    let st = Seq::new(ls.len(), |i: int| style_line(ls[i]));
    if ls.len() == 0 {
        assert(join(st, seq!['\n']) == Seq::<char>::empty());
        assert(join(ls, seq!['\n']) == Seq::<char>::empty());
        assert(Seq::<char>::empty() + t =~= t);
        assert(Seq::<char>::empty() + strip_styles(t) =~= strip_styles(t));
    } else if ls.len() == 1 {
        assert(join(st, seq!['\n']) == st[0]);
        assert(join(ls, seq!['\n']) == ls[0]);
        lemma_strip_style_line(ls[0], t);
    } else {
        let rest = ls.drop_first();
        let srest = Seq::new(rest.len(), |i: int| style_line(rest[i]));
        assert(st.drop_first() =~= srest);
        crate::text::lemma_join_front(st, seq!['\n']);
        crate::text::lemma_join_front(ls, seq!['\n']);
        assert(forall|i: int| 0 <= i < rest.len() ==> rest[i] == ls[i + 1]);
        lemma_strip_styled_join(rest, t);
        let jr = join(srest, seq!['\n']);
        assert(join(st, seq!['\n']) + t =~= style_line(ls[0]) + (seq!['\n'] + (jr + t)));
        lemma_strip_style_line(ls[0], seq!['\n'] + (jr + t));
        lemma_strip_plain(seq!['\n'], jr + t);
        assert(ls[0] + (seq!['\n'] + (join(rest, seq!['\n']) + strip_styles(t))) =~= join(
            ls,
            seq!['\n'],
        ) + strip_styles(t));
    }
}

/// Removing the inserted style codes from a colorized block gives the block
/// back, for text with no escape characters and no `\r\n` line endings.
pub proof fn lemma_colorize_strip_round_trip(raw: Seq<char>)
    requires
        !has_char(raw, esc()),
        crate::text::crlf_free(raw),
    ensures
        strip_styles(colorize_spec(raw)) == raw,
{
    crate::text::lemma_lines_without(raw, esc());
    let tail: Seq<char> = if ends_with(raw, seq!['\n']) {
        seq!['\n']
    } else {
        seq![]
    };
    lemma_strip_styled_join(lines(raw), tail);
    lemma_strip_plain(tail, Seq::<char>::empty());
    assert(strip_styles(Seq::<char>::empty()) == Seq::<char>::empty());
    assert(tail + Seq::<char>::empty() =~= tail);
    crate::text::lemma_join_lines(raw);
}

/// The bolded form of a `**label:**` line.
fn bold_label(line: &[char]) -> (r: Option<Vec<char>>)
    ensures
        match r {
            Some(v) => bold_label_spec(line@) == Some(v@),
            None => bold_label_spec(line@) is None,
        },
{
    let stars = chars_of("**");
    let close = chars_of(":**");
    assert(stars@ =~= seq!['*', '*']) by {
        reveal_strlit("**");
    }
    assert(close@ =~= seq![':', '*', '*']) by {
        reveal_strlit(":**");
    }
    if !has_prefix(line, stars.as_slice()) {
        return None;
    }
    match find_exec(line, close.as_slice()) {
        Some(k) => {
            proof {
                lemma_find_from_facts(line@, seq![':', '*', '*'], 0);
            }
            assert(matches_at(line@, seq![':', '*', '*'], k as int));
            let n = line.len();
            assert(k + 3 <= n);
            let label_end = k + 3;
            let mut out: Vec<char> = Vec::new();
            push_code(&mut out, 1);
            let head = sub_chars(line, 0, label_end);
            let tail = sub_chars(line, label_end, n);
            crate::text::extend_chars(&mut out, head.as_slice());
            push_code(&mut out, 0);
            crate::text::extend_chars(&mut out, tail.as_slice());
            assert(out@ =~= bold() + line@.subrange(0, k + 3) + reset() + line@.subrange(
                k + 3,
                line@.len() as int,
            ));
            Some(out)
        },
        None => None,
    }
}

/// Append a style code: 0 reset, 1 bold, anything else bold cyan.
fn push_code(out: &mut Vec<char>, which: u8)
    ensures
        final(out)@ == old(out)@ + (if which == 0 {
            reset()
        } else if which == 1 {
            bold()
        } else {
            bold_cyan()
        }),
{
    out.push('\u{1b}');
    out.push('[');
    if which == 0 {
        out.push('0');
    } else if which == 1 {
        out.push('1');
    } else {
        out.push('1');
        out.push(';');
        out.push('3');
        out.push('6');
    }
    out.push('m');
    assert(final(out)@ =~= old(out)@ + (if which == 0 {
        reset()
    } else if which == 1 {
        bold()
    } else {
        bold_cyan()
    }));
}

/// The styled form of one line.
fn style(line: &[char]) -> (r: Vec<char>)
    ensures
        r@ == style_line(line@),
{
    let marker = chars_of("## ");
    assert(marker@ =~= seq!['#', '#', ' ']) by {
        reveal_strlit("## ");
    }
    if has_prefix(line, marker.as_slice()) {
        let mut out: Vec<char> = Vec::new();
        push_code(&mut out, 2);
        crate::text::extend_chars(&mut out, line);
        push_code(&mut out, 0);
        out
    } else {
        match bold_label(line) {
            Some(v) => v,
            None => sub_chars(line, 0, line.len()),
        }
    }
}

/// Bold the entry header and field labels without changing their text.
pub fn colorize_block(raw: &str) -> (r: String)
    ensures
        r@ == colorize_spec(raw@),
{
    let chars = chars_of(raw);
    let ls = lines_of(chars.as_slice());
    let ghost styled = Seq::new(lines(raw@).len(), |i: int| style_line(lines(raw@)[i]));
    let mut out: Vec<char> = Vec::new();
    let mut i: usize = 0;
    while i < ls.len()
        invariant
            i <= ls@.len(),
            views(ls@) == lines(raw@),
            styled == Seq::new(lines(raw@).len(), |i: int| style_line(lines(raw@)[i])),
            out@ == join(styled.take(i as int), seq!['\n']),
        decreases ls@.len() - i,
    {
        if i > 0 {
            out.push('\n');
        }
        let s = style(ls[i].as_slice());
        crate::text::extend_chars(&mut out, s.as_slice());
        proof {
            let now = styled.take(i as int + 1);
            assert(now.drop_last() =~= styled.take(i as int));
            assert(views(ls@)[i as int] == ls@[i as int]@);
            assert(now.last() == s@);
            if i == 0 {
                assert(join(styled.take(0), seq!['\n']) == Seq::<char>::empty());
                assert(join(now, seq!['\n']) == now[0]);
            }
        }
        i = i + 1;
        assert(out@ =~= join(styled.take(i as int), seq!['\n']));
    }
    assert(styled.take(ls@.len() as int) =~= styled);
    let nl = chars_of("\n");
    assert(nl@ =~= seq!['\n']) by {
        reveal_strlit("\n");
    }
    if has_suffix(chars.as_slice(), nl.as_slice()) {
        out.push('\n');
    }
    assert(out@ =~= colorize_spec(raw@));
    string_of(out.as_slice())
}

} // verus!
