//! Entry rendering and the text an append writes.
use vstd::prelude::*;

use crate::parse::{
    clean_tags, heading_marker, newline, rejected_label, risk_label, strings_view,
    supersedes_label, tags_label, title_separator, why_label,
};
use crate::text::{chars_of, ends_with, has_suffix, join, string_of, trim, trim_chars, views};

verus! {

/// Borrowed fields for rendering one canonical entry.
#[derive(Debug, Clone)]
pub struct RenderInput<'a> {
    pub date: &'a str,
    pub title: &'a str,
    pub why: &'a str,
    pub rejected: Option<&'a str>,
    pub risk: Option<&'a str>,
    pub tags: &'a [String],
    /// Reference to the superseded decision, normally `date — title`.
    pub supersedes: Option<&'a str>,
}

/// The characters of an optional borrowed string.
pub open spec fn opt_str_view(o: Option<&str>) -> Option<Seq<char>> {
    match o {
        Some(s) => Some(s@),
        None => None,
    }
}

/// An optional value that is kept only when it has a non-whitespace character.
pub open spec fn non_blank(o: Option<Seq<char>>) -> Option<Seq<char>> {
    match o {
        Some(v) => if trim(v).len() > 0 {
            Some(v)
        } else {
            None
        },
        None => None,
    }
}

/// `"<label> <value>\n"` for a non-blank value, nothing otherwise.
pub open spec fn labelled_line(label: Seq<char>, v: Option<Seq<char>>) -> Seq<char> {
    match non_blank(v) {
        Some(v) => label + " "@ + v + newline(),
        None => seq![],
    }
}

/// `"**tags:** a, b\n"` for the trimmed non-empty tags, nothing when there are none.
pub open spec fn tags_line(tags: Seq<Seq<char>>) -> Seq<char> {
    let t = clean_tags(tags);
    if t.len() == 0 {
        seq![]
    } else {
        tags_label() + " "@ + join(t, ", "@) + newline()
    }
}

/// The canonical block for one entry: heading, `why`, then the non-blank
/// optional fields in the order supersedes, rejected, risk, tags, and a
/// closing blank line.
pub open spec fn render_spec(
    date: Seq<char>,
    title: Seq<char>,
    why: Seq<char>,
    supersedes: Option<Seq<char>>,
    rejected: Option<Seq<char>>,
    risk: Option<Seq<char>>,
    tags: Seq<Seq<char>>,
) -> Seq<char> {
    heading_marker() + date + title_separator() + title + newline() + why_label() + " "@ + why
        + newline() + labelled_line(supersedes_label(), supersedes) + labelled_line(
        rejected_label(),
        rejected,
    ) + labelled_line(risk_label(), risk) + tags_line(tags) + newline()
}

/// [`render_spec`] applied to the fields of `input`.
pub open spec fn rendered(input: RenderInput) -> Seq<char> {
    render_spec(
        input.date@,
        input.title@,
        input.why@,
        opt_str_view(input.supersedes),
        opt_str_view(input.rejected),
        opt_str_view(input.risk),
        strings_view(input.tags@),
    )
}

/// `value` when it has a non-whitespace character.
fn non_empty<'a>(value: Option<&'a str>) -> (r: Option<&'a str>)
    ensures
        opt_str_view(r) == non_blank(opt_str_view(value)),
{
    match value {
        Some(v) => {
            let c = chars_of(v);
            if trim_chars(c.as_slice()).len() > 0 {
                Some(v)
            } else {
                None
            }
        },
        None => None,
    }
}

/// Append `"<label> <value>\n"` to `out` when `value` is non-blank.
fn push_labelled(out: &mut String, label: &str, value: Option<&str>)
    ensures
        final(out)@ == old(out)@ + labelled_line(label@, opt_str_view(value)),
{
    match non_empty(value) {
        Some(v) => {
            out.push_str(label);
            out.push_str(" ");
            out.push_str(v);
            out.push_str("\n");
            assert(final(out)@ =~= old(out)@ + (label@ + " "@ + v@ + newline()));
        },
        None => {
            assert(old(out)@ + seq![] =~= old(out)@);
        },
    }
}

/// Render a canonical Markdown block ending with a blank line.
pub fn render_entry_block(input: &RenderInput<'_>) -> (r: String)
    ensures
        r@ == rendered(*input),
{
    let mut out = String::new();
    out.push_str("## ");
    out.push_str(input.date);
    out.push_str(" — ");
    out.push_str(input.title);
    out.push_str("\n");
    out.push_str("**why:** ");
    out.push_str(input.why);
    out.push_str("\n");
    let ghost head = out@;
    assert("**why:** "@ =~= why_label() + " "@) by {
        reveal_strlit("**why:** ");
        reveal_strlit("**why:**");
        reveal_strlit(" ");
    }
    push_labelled(&mut out, "**supersedes:**", input.supersedes);
    push_labelled(&mut out, "**rejected:**", input.rejected);
    push_labelled(&mut out, "**risk:**", input.risk);
    let mut kept: Vec<Vec<char>> = Vec::new();
    let mut i: usize = 0;
    while i < input.tags.len()
        invariant
            i <= input.tags@.len(),
            views(kept@) == clean_tags(strings_view(input.tags@).take(i as int)),
        decreases input.tags@.len() - i,
    {
        let c = chars_of(input.tags[i].as_str());
        let t = trim_chars(c.as_slice());
        assert(strings_view(input.tags@).take(i as int + 1).drop_last() =~= strings_view(
            input.tags@,
        ).take(i as int));
        if t.len() > 0 {
            let ghost before = views(kept@);
            let ghost tv = t@;
            kept.push(t);
            assert(views(kept@) =~= before.push(tv));
        }
        i = i + 1;
    }
    assert(strings_view(input.tags@).take(input.tags@.len() as int) =~= strings_view(
        input.tags@,
    ));
    let ghost before_tags = out@;
    if kept.len() > 0 {
        out.push_str("**tags:** ");
        let mut k: usize = 0;
        while k < kept.len()
            invariant
                k <= kept@.len(),
                kept@.len() > 0,
                k == 0 ==> out@ == before_tags + "**tags:** "@,
                k > 0 ==> out@ == before_tags + "**tags:** "@ + join(
                    views(kept@).take(k as int),
                    ", "@,
                ),
            decreases kept@.len() - k,
        {
            let ghost prev = out@;
            if k > 0 {
                out.push_str(", ");
            }
            let s = string_of(kept[k].as_slice());
            out.push_str(s.as_str());
            proof {
                let now = views(kept@).take(k as int + 1);
                assert(now.drop_last() =~= views(kept@).take(k as int));
                assert(now.last() == kept@[k as int]@);
                if k == 0 {
                    assert(join(now, ", "@) == now[0]);
                }
            }
            k = k + 1;
        }
        out.push_str("\n");
        assert(views(kept@).take(kept@.len() as int) =~= views(kept@));
        assert("**tags:** "@ =~= tags_label() + " "@) by {
            reveal_strlit("**tags:** ");
            reveal_strlit("**tags:**");
            reveal_strlit(" ");
        }
    }
    out.push_str("\n");
    assert(out@ =~= rendered(*input));
    out
}

/// The separator placed between existing text and an appended block so that
/// the block starts a new paragraph: nothing after empty text or text ending
/// in a blank line, one newline after text ending in a newline, two otherwise.
pub open spec fn separator_for(existing: Seq<char>) -> Seq<char> {
    if existing.len() == 0 || ends_with(existing, "\n\n"@) || ends_with(existing, "\r\n\r\n"@) {
        seq![]
    } else if ends_with(existing, "\n"@) {
        "\n"@
    } else {
        "\n\n"@
    }
}

/// The separator to write between `existing` text and an appended block.
pub fn append_separator(existing: &str) -> (r: &'static str)
    ensures
        r@ == separator_for(existing@),
{
    let c = chars_of(existing);
    let two = chars_of("\n\n");
    let crlf2 = chars_of("\r\n\r\n");
    let one = chars_of("\n");
    if c.len() == 0 || has_suffix(c.as_slice(), two.as_slice()) || has_suffix(
        c.as_slice(),
        crlf2.as_slice(),
    ) {
        assert(""@ =~= seq![]) by {
            reveal_strlit("");
        }
        ""
    } else if has_suffix(c.as_slice(), one.as_slice()) {
        "\n"
    } else {
        "\n\n"
    }
}

/// The full text of a logbook after `block` is appended to `existing`.
pub fn appended_text(existing: &str, block: &str) -> (r: String)
    ensures
        r@ == existing@ + separator_for(existing@) + block@,
{
    let mut out = String::new();
    out.push_str(existing);
    out.push_str(append_separator(existing));
    out.push_str(block);
    assert(out@ =~= existing@ + separator_for(existing@) + block@);
    out
}

/// Whether text, once a block is written after it, leaves that block at the
/// start of a paragraph: it is empty or ends in a blank line.
pub open spec fn paragraph_boundary(s: Seq<char>) -> bool {
    s.len() == 0 || ends_with(s, "\n\n"@) || ends_with(s, "\r\n\r\n"@)
}

/// The separator is the shortest of `""`, `"\n"` and `"\n\n"` that leaves a
/// paragraph boundary after the existing text. This holds for text that does
/// not end in a carriage return; after `"\r\n\r"`, for one, a single
/// newline would already do and two are written.
pub proof fn lemma_separator_is_shortest(t: Seq<char>)
    requires
        t.len() == 0 || t.last() != '\r',
    ensures
        separator_for(t) == Seq::<char>::empty() || separator_for(t) == seq!['\n']
            || separator_for(t) == seq!['\n', '\n'],
        paragraph_boundary(t + separator_for(t)),
        separator_for(t).len() >= 1 ==> !paragraph_boundary(t),
        separator_for(t).len() == 2 ==> !paragraph_boundary(t + seq!['\n']),
{
    reveal_strlit("\n\n");
    reveal_strlit("\r\n\r\n");
    reveal_strlit("\n");
    assert("\n"@ =~= seq!['\n']);
    assert("\n\n"@ =~= seq!['\n', '\n']);
    let sep = separator_for(t);
    let u = t + sep;
    if t.len() == 0 || ends_with(t, "\n\n"@) || ends_with(t, "\r\n\r\n"@) {
        assert(u =~= t);
    } else if ends_with(t, "\n"@) {
        assert(sep =~= seq!['\n']);
        assert(t.subrange(t.len() - 1, t.len() as int)[0] == t.last());
        assert(u.subrange(u.len() - 2, u.len() as int) =~= seq!['\n', '\n']);
    } else {
        assert(sep =~= seq!['\n', '\n']);
        assert(u.subrange(u.len() - 2, u.len() as int) =~= seq!['\n', '\n']);
        let v = t + seq!['\n'];
        assert(t.last() != '\n') by {
            if t.last() == '\n' {
                assert(t.subrange(t.len() - 1, t.len() as int) =~= seq!['\n']);
            }
        }
        assert(!ends_with(v, "\n\n"@)) by {
            if ends_with(v, "\n\n"@) {
                assert(v.subrange(v.len() - 2, v.len() as int)[0] == t.last());
            }
        }
        assert(!ends_with(v, "\r\n\r\n"@)) by {
            if ends_with(v, "\r\n\r\n"@) {
                assert(v.subrange(v.len() - 4, v.len() as int)[2] == t.last());
            }
        }
    }
}

} // verus!
