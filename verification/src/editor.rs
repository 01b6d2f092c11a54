//! The decisions around composing a decision reason in `$EDITOR`: which
//! editor to run, how its command splits into words, and what text the
//! edited file yields.
use vstd::prelude::*;

use crate::error::Error;
use crate::parse::strings_view;
use crate::text::{
    chars_of, is_whitespace, is_ws, join, join_chars, lines, lines_of, starts_with, string_of, trim,
    trim_chars, trim_start, trim_start_index, views,
};

verus! {

/// Whether a line is a comment: its first non-whitespace character is `#`.
pub open spec fn is_comment_line(l: Seq<char>) -> bool {
    starts_with(trim_start(l), seq!['#'])
}

/// The lines that are not comments, in order.
pub open spec fn non_comment_lines(ls: Seq<Seq<char>>) -> Seq<Seq<char>>
    decreases ls.len(),
{
    if ls.len() == 0 {
        seq![]
    } else {
        let prev = non_comment_lines(ls.drop_last());
        if is_comment_line(ls.last()) {
            prev
        } else {
            prev.push(ls.last())
        }
    }
}

/// The edited text without comment lines, joined by newlines and trimmed.
pub open spec fn strip_comments_spec(raw: Seq<char>) -> Seq<char> {
    trim(join(non_comment_lines(lines(raw)), seq!['\n']))
}

/// Drop comment lines and surrounding whitespace from edited text.
pub fn strip_comments(raw: &str) -> (r: String)
    ensures
        r@ == strip_comments_spec(raw@),
{
    let chars = chars_of(raw);
    let ls = lines_of(chars.as_slice());
    let mut kept: Vec<Vec<char>> = Vec::new();
    let mut i: usize = 0;
    while i < ls.len()
        invariant
            i <= ls@.len(),
            views(ls@) == lines(raw@),
            views(kept@) == non_comment_lines(views(ls@).take(i as int)),
        decreases ls@.len() - i,
    {
        let line = &ls[i];
        let a = trim_start_index(line.as_slice());
        let comment = a < line.len() && line[a] == '#';
        assert(views(ls@).take(i as int + 1).drop_last() =~= views(ls@).take(i as int));
        assert(views(ls@).take(i as int + 1).last() == line@);
        proof {
            let t = trim_start(line@);
            assert(t == line@.subrange(a as int, line@.len() as int));
            if t.len() >= 1 {
                assert(t[0] == line@[a as int]);
                assert(t.subrange(0, 1) =~= seq![t[0]]);
                if t[0] == '#' {
                    assert(starts_with(t, seq!['#']));
                } else {
                    assert(t.subrange(0, 1)[0] != seq!['#'][0]);
                }
            }
        }
        assert(comment == is_comment_line(line@));
        if !comment {
            let ghost before = views(kept@);
            let copy = crate::text::sub_chars(line.as_slice(), 0, line.len());
            assert(copy@ =~= line@);
            kept.push(copy);
            assert(views(kept@) =~= before.push(line@));
        }
        i = i + 1;
    }
    assert(views(ls@).take(ls@.len() as int) =~= views(ls@));
    let nl = chars_of("\n");
    assert(nl@ =~= seq!['\n']) by {
        reveal_strlit("\n");
    }
    let joined = join_chars(&kept, nl.as_slice());
    let t = trim_chars(joined.as_slice());
    string_of(t.as_slice())
}

/// The word-splitting state while reading an editor command.
pub ghost struct SplitState {
    pub parts: Seq<Seq<char>>,
    pub current: Seq<char>,
    pub quote: Option<char>,
}

/// One character of an editor command: a matching quote closes the quote,
/// other characters inside quotes are kept, an opening `'` or `"` starts a
/// quote, whitespace outside quotes ends the current word, and any other
/// character extends it.
pub open spec fn split_step(st: SplitState, c: char) -> SplitState {
    match st.quote {
        Some(open) => if open == c {
            SplitState { quote: None, ..st }
        } else {
            SplitState { current: st.current.push(c), ..st }
        },
        None => if c == '\'' || c == '"' {
            SplitState { quote: Some(c), ..st }
        } else if is_ws(c) {
            if st.current.len() > 0 {
                SplitState { parts: st.parts.push(st.current), current: seq![], ..st }
            } else {
                st
            }
        } else {
            SplitState { current: st.current.push(c), ..st }
        },
    }
}

/// The state after reading all of `s`.
pub open spec fn split_run(s: Seq<char>) -> SplitState
    decreases s.len(),
{
    if s.len() == 0 {
        SplitState { parts: seq![], current: seq![], quote: None }
    } else {
        split_step(split_run(s.drop_last()), s.last())
    }
}

/// The words of an editor command, or the message of the failure: an
/// unclosed quote, or no words at all.
pub open spec fn split_command_spec(s: Seq<char>) -> Result<Seq<Seq<char>>, Seq<char>> {
    let st = split_run(s);
    if st.quote is Some {
        Err("unclosed quote in editor command"@)
    } else {
        let parts = if st.current.len() > 0 {
            st.parts.push(st.current)
        } else {
            st.parts
        };
        if parts.len() == 0 {
            Err("empty editor command"@)
        } else {
            Ok(parts)
        }
    }
}

/// Split an editor command into words, honouring single and double quotes.
pub fn split_editor_command(command: &str) -> (r: Result<Vec<String>, Error>)
    ensures
        match r {
            Ok(v) => split_command_spec(command@) == Ok::<Seq<Seq<char>>, Seq<char>>(
                strings_view(v@),
            ),
            Err(Error::Editor(m)) => split_command_spec(command@) == Err::<Seq<Seq<char>>, Seq<char>>(
                m@,
            ),
            Err(_) => false,
        },
{
    let chars = chars_of(command);
    let mut parts: Vec<Vec<char>> = Vec::new();
    let mut current: Vec<char> = Vec::new();
    let mut quote: Option<char> = None;
    let mut i: usize = 0;
    assert(chars@.take(0) =~= Seq::<char>::empty());
    assert(views(parts@) =~= Seq::<Seq<char>>::empty());
    assert(current@ =~= Seq::<char>::empty());
    while i < chars.len()
        invariant
            i <= chars@.len(),
            chars@ == command@,
            split_run(chars@.take(i as int)) == (SplitState {
                parts: views(parts@),
                current: current@,
                quote,
            }),
        decreases chars@.len() - i,
    {
        let c = chars[i];
        assert(chars@.take(i as int + 1).drop_last() =~= chars@.take(i as int));
        assert(chars@.take(i as int + 1).last() == c);
        match quote {
            Some(open) => {
                if open == c {
                    quote = None;
                } else {
                    current.push(c);
                }
            },
            None => {
                if c == '\'' || c == '"' {
                    quote = Some(c);
                } else if is_whitespace(c) {
                    if current.len() > 0 {
                        let ghost before = views(parts@);
                        let ghost cv = current@;
                        parts.push(current);
                        assert(views(parts@) =~= before.push(cv));
                        current = Vec::new();
                        assert(current@ =~= Seq::<char>::empty());
                    }
                } else {
                    current.push(c);
                }
            },
        }
        i = i + 1;
    }
    assert(chars@.take(chars@.len() as int) =~= chars@);
    if quote.is_some() {
        return Err(Error::Editor(string_of(chars_of("unclosed quote in editor command").as_slice())));
    }
    if current.len() > 0 {
        let ghost before = views(parts@);
        let ghost cv = current@;
        parts.push(current);
        assert(views(parts@) =~= before.push(cv));
    }
    if parts.len() == 0 {
        return Err(Error::Editor(string_of(chars_of("empty editor command").as_slice())));
    }
    let mut out: Vec<String> = Vec::new();
    let mut k: usize = 0;
    while k < parts.len()
        invariant
            k <= parts@.len(),
            strings_view(out@) == views(parts@).take(k as int),
        decreases parts@.len() - k,
    {
        let ghost before = strings_view(out@);
        let w = string_of(parts[k].as_slice());
        out.push(w);
        assert(strings_view(out@) =~= before.push(parts@[k as int]@));
        assert(views(parts@).take(k as int + 1) =~= views(parts@).take(k as int).push(
            parts@[k as int]@,
        ));
        assert(strings_view(out@) =~= views(parts@).take(k as int + 1));
        k = k + 1;
    }
    assert(views(parts@).take(parts@.len() as int) =~= views(parts@));
    Ok(out)
}

/// Whether a configured editor value names a command: it has a non-whitespace character.
pub open spec fn editor_set(v: Option<Seq<char>>) -> bool {
    match v {
        Some(s) => trim(s).len() > 0,
        None => false,
    }
}

/// Pick the editor: `$EDITOR` when it is set and not blank, else `$VISUAL`
/// on the same terms, else fail with [`Error::NoEditor`].
pub fn resolve_editor_from(editor: Option<String>, visual: Option<String>) -> (r: Result<
    String,
    Error,
>)
    ensures
        match r {
            Ok(v) => (editor_set(crate::parse::opt_view(editor)) && Some(v@) == crate::parse::opt_view(
                editor,
            )) || (!editor_set(crate::parse::opt_view(editor)) && editor_set(
                crate::parse::opt_view(visual),
            ) && Some(v@) == crate::parse::opt_view(visual)),
            Err(Error::NoEditor) => !editor_set(crate::parse::opt_view(editor)) && !editor_set(
                crate::parse::opt_view(visual),
            ),
            Err(_) => false,
        },
{
    if let Some(v) = editor {
        let c = chars_of(v.as_str());
        if trim_chars(c.as_slice()).len() > 0 {
            return Ok(v);
        }
    }
    if let Some(v) = visual {
        let c = chars_of(v.as_str());
        if trim_chars(c.as_slice()).len() > 0 {
            return Ok(v);
        }
    }
    Err(Error::NoEditor)
}

/// The decision reason that an edited file yields: the text without comment
/// lines and surrounding whitespace, or [`Error::EmptyEntry`] when nothing is left.
pub fn editor_reason(raw: &str) -> (r: Result<String, Error>)
    ensures
        match r {
            Ok(v) => v@ == strip_comments_spec(raw@) && v@.len() > 0,
            Err(Error::EmptyEntry) => strip_comments_spec(raw@).len() == 0,
            Err(_) => false,
        },
{
    let cleaned = strip_comments(raw);
    if cleaned.as_str().is_empty() {
        Err(Error::EmptyEntry)
    } else {
        Ok(cleaned)
    }
}

} // verus!
