//! The rendered form of an entry parses back to the entry it was rendered from.
use vstd::prelude::*;

use crate::date_shaped;
use crate::parse::{
    blocks, block_tags, clean_tags, entry_of, field_value, heading_date, heading_marker, heading_text,
    heading_title, is_field_line, is_heading, lemma_blocks_single, lemma_clean_spaced_tags,
    lemma_clean_tags_clean, lemma_field_absent, lemma_first_prefixed_at, lemma_first_prefixed_none,
    lemma_next_field_line_at, lemma_next_field_line_none, lemma_split_joined_tags, link, matching_prior,
    newline, parse_spec, rejected_label, risk_label, successor_refs, supersedes_label, tags_label,
    title_separator, unique_target, why_label,
};
use crate::store::{labelled_line, non_blank, render_spec, tags_line};
use crate::text::{
    crlf_free, ends_with, first_word, has_char, is_trimmed, is_ws, join, lemma_differ_at,
    lemma_find_from_at, lemma_has_char_concat, lemma_join_lines, lemma_lines_plain,
    lemma_lines_terminated, lemma_terminated_append, lemma_terminated_join, lemma_terminated_one,
    lemma_trim_end_ws_suffix, lemma_trim_trimmed, lemma_ws_pos_append, lines, matches_at,
    plain_line, split, starts_with, terminated, trim_end, trim_start, ws_pos,
};

verus! {

/// Non-empty text on one line with no surrounding whitespace.
pub open spec fn single_line_text(v: Seq<char>) -> bool {
    &&& v.len() > 0
    &&& is_trimmed(v)
    &&& !has_char(v, '\n')
}

/// Field text that a field keeps through rendering and parsing: no
/// surrounding whitespace, no `\r\n`, a non-empty first line without
/// surrounding whitespace, and no later line that the parser would read as
/// an entry heading or a field label.
pub open spec fn body_text(v: Seq<char>) -> bool {
    &&& is_trimmed(v)
    &&& crlf_free(v)
    &&& lines(v).len() > 0
    &&& lines(v)[0].len() > 0
    &&& is_trimmed(lines(v)[0])
    &&& forall|i: int|
        1 <= i < lines(v).len() ==> !is_heading(#[trigger] lines(v)[i]) && !is_field_line(
            lines(v)[i],
        )
}

/// An absent value, or a value that is [`body_text`].
pub open spec fn optional_body(o: Option<Seq<char>>) -> bool {
    match o {
        Some(v) => body_text(v),
        None => true,
    }
}

/// A tag that a tag line can hold: one-line text without commas.
pub open spec fn tag_text(t: Seq<char>) -> bool {
    single_line_text(t) && !has_char(t, ',')
}

/// `"<label> <value>"`.
pub open spec fn labelled(label: Seq<char>, v: Seq<char>) -> Seq<char> {
    label + " "@ + v
}

/// The lines a field with value `v` takes: the label with the first line of
/// `v`, then the other lines of `v`.
pub open spec fn field_lines(label: Seq<char>, v: Seq<char>) -> Seq<Seq<char>> {
    seq![labelled(label, lines(v)[0])] + lines(v).drop_first()
}

/// The lines of an optional field, when the value is present.
pub open spec fn opt_field_lines(label: Seq<char>, o: Option<Seq<char>>) -> Seq<Seq<char>> {
    match o {
        Some(v) => field_lines(label, v),
        None => seq![],
    }
}

/// The tag line, when there are tags.
pub open spec fn tag_lines(tags: Seq<Seq<char>>) -> Seq<Seq<char>> {
    if tags.len() == 0 {
        seq![]
    } else {
        seq![labelled(tags_label(), join(tags, ", "@))]
    }
}

/// The heading line of a rendered entry.
pub open spec fn heading_line(date: Seq<char>, title: Seq<char>) -> Seq<char> {
    heading_marker() + date + title_separator() + title
}

/// The lines of a rendered entry, ending with the blank line.
pub open spec fn entry_lines(
    date: Seq<char>,
    title: Seq<char>,
    why: Seq<char>,
    supersedes: Option<Seq<char>>,
    rejected: Option<Seq<char>>,
    risk: Option<Seq<char>>,
    tags: Seq<Seq<char>>,
) -> Seq<Seq<char>> {
    seq![heading_line(date, title)] + field_lines(why_label(), why) + opt_field_lines(
        supersedes_label(),
        supersedes,
    ) + opt_field_lines(rejected_label(), rejected) + opt_field_lines(risk_label(), risk)
        + tag_lines(tags) + seq![Seq::<char>::empty()]
}

/// The inputs for which rendering and parsing agree field by field.
pub open spec fn round_trip_inputs(
    date: Seq<char>,
    title: Seq<char>,
    why: Seq<char>,
    supersedes: Option<Seq<char>>,
    rejected: Option<Seq<char>>,
    risk: Option<Seq<char>>,
    tags: Seq<Seq<char>>,
) -> bool {
    &&& date_shaped(date)
    &&& single_line_text(title)
    &&& body_text(why)
    &&& optional_body(supersedes)
    &&& optional_body(rejected)
    &&& optional_body(risk)
    &&& forall|i: int| 0 <= i < tags.len() ==> tag_text(#[trigger] tags[i])
}

proof fn lemma_literals()
    ensures
        heading_marker() == seq!['#', '#', ' '],
        title_separator() == seq![' ', '\u{2014}', ' '],
        newline() == seq!['\n'],
        " "@ == seq![' '],
        ", "@ == seq![',', ' '],
        why_label() == seq!['*', '*', 'w', 'h', 'y', ':', '*', '*'],
        supersedes_label().len() == 15 && supersedes_label()[0] == '*' && supersedes_label()[1]
            == '*' && supersedes_label()[2] == 's',
        rejected_label().len() == 13 && rejected_label()[0] == '*' && rejected_label()[1] == '*'
            && rejected_label()[2] == 'r' && rejected_label()[3] == 'e',
        risk_label().len() == 9 && risk_label()[0] == '*' && risk_label()[1] == '*'
            && risk_label()[2] == 'r' && risk_label()[3] == 'i',
        tags_label().len() == 9 && tags_label()[0] == '*' && tags_label()[1] == '*'
            && tags_label()[2] == 't',
{
    reveal_strlit("## ");
    reveal_strlit(" — ");
    reveal_strlit("\n");
    reveal_strlit(" ");
    reveal_strlit(", ");
    reveal_strlit("**why:**");
    reveal_strlit("**supersedes:**");
    reveal_strlit("**rejected:**");
    reveal_strlit("**risk:**");
    reveal_strlit("**tags:**");
    assert(heading_marker() =~= seq!['#', '#', ' ']);
    assert(title_separator() =~= seq![' ', '\u{2014}', ' ']);
    assert(newline() =~= seq!['\n']);
    assert(" "@ =~= seq![' ']);
    assert(", "@ =~= seq![',', ' ']);
    assert(why_label() =~= seq!['*', '*', 'w', 'h', 'y', ':', '*', '*']);
}

/// The label a labelled line starts with is the only label it starts with.
proof fn lemma_label_line_starts(label: Seq<char>, v: Seq<char>)
    requires
        label == why_label() || label == supersedes_label() || label == rejected_label() || label
            == risk_label() || label == tags_label(),
    ensures
        starts_with(labelled(label, v), label),
        is_field_line(labelled(label, v)),
        !is_heading(labelled(label, v)),
        label != why_label() ==> !starts_with(labelled(label, v), why_label()),
        label != supersedes_label() ==> !starts_with(labelled(label, v), supersedes_label()),
        label != rejected_label() ==> !starts_with(labelled(label, v), rejected_label()),
        label != risk_label() ==> !starts_with(labelled(label, v), risk_label()),
        label != tags_label() ==> !starts_with(labelled(label, v), tags_label()),
{
    lemma_literals();
    let l = labelled(label, v);
    assert(l.subrange(0, label.len() as int) =~= label);
    assert(forall|m: int| 0 <= m < label.len() ==> l[m] == label[m]);
    lemma_differ_at(l, heading_marker(), 0);
    if label == why_label() {
        lemma_differ_at(l, supersedes_label(), 2);
        lemma_differ_at(l, rejected_label(), 2);
        lemma_differ_at(l, risk_label(), 2);
        lemma_differ_at(l, tags_label(), 2);
    } else if label == supersedes_label() {
        lemma_differ_at(l, why_label(), 2);
        lemma_differ_at(l, rejected_label(), 2);
        lemma_differ_at(l, risk_label(), 2);
        lemma_differ_at(l, tags_label(), 2);
    } else if label == rejected_label() {
        lemma_differ_at(l, why_label(), 2);
        lemma_differ_at(l, supersedes_label(), 2);
        lemma_differ_at(l, risk_label(), 3);
        lemma_differ_at(l, tags_label(), 2);
    } else if label == risk_label() {
        lemma_differ_at(l, why_label(), 2);
        lemma_differ_at(l, supersedes_label(), 2);
        lemma_differ_at(l, rejected_label(), 3);
        lemma_differ_at(l, tags_label(), 2);
    } else {
        lemma_differ_at(l, why_label(), 2);
        lemma_differ_at(l, supersedes_label(), 2);
        lemma_differ_at(l, rejected_label(), 2);
        lemma_differ_at(l, risk_label(), 2);
    }
}

/// The heading line starts no field, and the blank line starts nothing.
proof fn lemma_heading_and_blank_lines(date: Seq<char>, title: Seq<char>)
    ensures
        is_heading(heading_line(date, title)),
        !is_field_line(heading_line(date, title)),
        !is_heading(Seq::<char>::empty()),
        !is_field_line(Seq::<char>::empty()),
{
    lemma_literals();
    let h = heading_line(date, title);
    assert(h.subrange(0, 3) =~= heading_marker());
    lemma_differ_at(h, why_label(), 0);
    lemma_differ_at(h, supersedes_label(), 0);
    lemma_differ_at(h, rejected_label(), 0);
    lemma_differ_at(h, risk_label(), 0);
    lemma_differ_at(h, tags_label(), 0);
}

/// A label, a space and one-line text form a plain line.
proof fn lemma_labelled_plain(label: Seq<char>, v: Seq<char>)
    requires
        !has_char(label, '\n'),
        single_line_text(v),
    ensures
        plain_line(labelled(label, v)),
{
    lemma_literals();
    lemma_has_char_concat(label, " "@, '\n');
    lemma_has_char_concat(label + " "@, v, '\n');
    assert(labelled(label, v).last() == v.last());
    assert(v.last() != '\r');
}

proof fn lemma_no_newline_in_labels()
    ensures
        !has_char(why_label(), '\n'),
        !has_char(supersedes_label(), '\n'),
        !has_char(rejected_label(), '\n'),
        !has_char(risk_label(), '\n'),
        !has_char(tags_label(), '\n'),
        !has_char(heading_marker(), '\n'),
        !has_char(title_separator(), '\n'),
        !has_char(", "@, '\n'),
{
    reveal_strlit("**why:**");
    reveal_strlit("**supersedes:**");
    reveal_strlit("**rejected:**");
    reveal_strlit("**risk:**");
    reveal_strlit("**tags:**");
    reveal_strlit("## ");
    reveal_strlit(" — ");
    reveal_strlit(", ");
}

/// Tags without newlines joined by `", "` have no newline.
proof fn lemma_join_tags_no_newline(tags: Seq<Seq<char>>)
    requires
        forall|i: int| 0 <= i < tags.len() ==> !has_char(#[trigger] tags[i], '\n'),
    ensures
        !has_char(join(tags, ", "@), '\n'),
    decreases tags.len(),
{
    lemma_no_newline_in_labels();
    if tags.len() > 1 {
        let dl = tags.drop_last();
        assert(forall|i: int| 0 <= i < dl.len() ==> dl[i] == tags[i]);
        lemma_join_tags_no_newline(dl);
        lemma_has_char_concat(join(dl, ", "@), ", "@, '\n');
        lemma_has_char_concat(join(dl, ", "@) + ", "@, tags.last(), '\n');
    } else if tags.len() == 1 {
        assert(!has_char(tags[0], '\n'));
    } else {
        assert(!has_char(Seq::<char>::empty(), '\n'));
    }
}

/// Splitting a rendered entry's heading gives back its date and title.
proof fn lemma_rendered_heading(date: Seq<char>, title: Seq<char>)
    requires
        date_shaped(date),
        single_line_text(title),
    ensures
        heading_text(seq![heading_line(date, title)]) == date + title_separator() + title,
        heading_date(date + title_separator() + title) == Some(date),
        heading_title(date + title_separator() + title, true) == Some(title),
{
    lemma_literals();
    let h = date + title_separator() + title;
    let line = heading_line(date, title);
    assert(line.subrange(3, line.len() as int) =~= h);
    assert forall|i: int| 0 <= i < date.len() implies !is_ws(#[trigger] date[i]) by {
        if i != 4 && i != 7 {
            assert(crate::is_digit(date[i]));
        }
    }
    assert(h =~= date + (title_separator() + title));
    lemma_ws_pos_append(date, title_separator() + title);
    assert(is_ws((title_separator() + title)[0]));
    assert(ws_pos(title_separator() + title) == 0);
    assert(!is_ws(h[0])) by {
        assert(crate::is_digit(date[0]));
    }
    assert(trim_start(h) == h);
    assert(first_word(h) == Some(h.subrange(0, 10)));
    assert(h.subrange(0, 10) =~= date);
    assert(matches_at(h, title_separator(), 10)) by {
        assert(h.subrange(10, 13) =~= title_separator());
    }
    assert forall|j: int| 0 <= j < 10 implies !matches_at(h, title_separator(), j) by {
        if matches_at(h, title_separator(), j) {
            assert(h.subrange(j, j + 3)[0] == h[j]);
            assert(h[j] == date[j]);
            if j != 4 && j != 7 {
                assert(crate::is_digit(date[j]));
            }
        }
    }
    lemma_find_from_at(h, title_separator(), 0, 10);
    assert(h.subrange(13, h.len() as int) =~= title);
    lemma_trim_trimmed(title);
}


/// What a field value that is [`body_text`] gives when split into lines:
/// plain lines that join back into it.
proof fn lemma_body_text(v: Seq<char>)
    requires
        body_text(v),
    ensures
        v.len() > 0,
        forall|i: int| 0 <= i < lines(v).len() ==> plain_line(#[trigger] lines(v)[i]),
        join(lines(v), seq!['\n']) == v,
        terminated(lines(v)) == v + seq!['\n'],
        single_line_text(lines(v)[0]),
{
    if v.len() == 0 {
        assert(lines(v).len() == 0);
    }
    assert(!is_ws(v.last()));
    lemma_lines_plain(v);
    lemma_join_lines(v);
    assert(!ends_with(v, seq!['\n'])) by {
        if ends_with(v, seq!['\n']) {
            assert(v.subrange(v.len() - 1, v.len() as int)[0] == v.last());
        }
    }
    assert(join(lines(v), seq!['\n']) + Seq::<char>::empty() =~= join(lines(v), seq!['\n']));
    lemma_terminated_join(lines(v));
    assert(plain_line(lines(v)[0]));
}

/// The lines of a field, newline-terminated, are its rendered text.
proof fn lemma_field_terminated(label: Seq<char>, v: Seq<char>)
    requires
        body_text(v),
    ensures
        terminated(field_lines(label, v)) == label + " "@ + v + seq!['\n'],
{
    lemma_body_text(v);
    let lv = lines(v);
    let rest = lv.drop_first();
    let fl = field_lines(label, v);
    assert(fl.drop_first() =~= rest);
    assert(fl[0] == labelled(label, lv[0]));
    assert(terminated(fl) == fl[0] + seq!['\n'] + terminated(fl.drop_first()));
    assert(terminated(lv) == lv[0] + seq!['\n'] + terminated(rest));
    assert(label + " "@ + v + seq!['\n'] =~= label + " "@ + (v + seq!['\n']));
    assert(terminated(fl) =~= label + " "@ + (lv[0] + seq!['\n'] + terminated(rest)));
}

/// Every line of a field is plain.
proof fn lemma_field_lines_plain(label: Seq<char>, v: Seq<char>)
    requires
        !has_char(label, '\n'),
        body_text(v),
    ensures
        forall|i: int|
            0 <= i < field_lines(label, v).len() ==> plain_line(#[trigger] field_lines(label, v)[i]),
{
    lemma_body_text(v);
    lemma_labelled_plain(label, lines(v)[0]);
    assert forall|i: int| 0 <= i < field_lines(label, v).len() implies plain_line(
        #[trigger] field_lines(label, v)[i],
    ) by {
        if i > 0 {
            assert(field_lines(label, v)[i] == lines(v)[i]);
        }
    }
}

/// The first line of a field starts with its label and with no other; the
/// other lines start no field and no entry.
proof fn lemma_field_lines_shape(label: Seq<char>, v: Seq<char>)
    requires
        label == why_label() || label == supersedes_label() || label == rejected_label() || label
            == risk_label() || label == tags_label(),
        body_text(v),
    ensures
        field_lines(label, v).len() == lines(v).len(),
        field_lines(label, v).len() >= 1,
        starts_with(field_lines(label, v)[0], label),
        is_field_line(field_lines(label, v)[0]),
        !is_heading(field_lines(label, v)[0]),
        label != why_label() ==> !starts_with(field_lines(label, v)[0], why_label()),
        label != supersedes_label() ==> !starts_with(field_lines(label, v)[0], supersedes_label()),
        label != rejected_label() ==> !starts_with(field_lines(label, v)[0], rejected_label()),
        label != risk_label() ==> !starts_with(field_lines(label, v)[0], risk_label()),
        label != tags_label() ==> !starts_with(field_lines(label, v)[0], tags_label()),
        forall|k: int|
            1 <= k < field_lines(label, v).len() ==> !is_field_line(
                #[trigger] field_lines(label, v)[k],
            ) && !is_heading(field_lines(label, v)[k]),
{
    lemma_label_line_starts(label, lines(v)[0]);
    assert forall|k: int| 1 <= k < field_lines(label, v).len() implies !is_field_line(
        #[trigger] field_lines(label, v)[k],
    ) && !is_heading(field_lines(label, v)[k]) by {
        assert(field_lines(label, v)[k] == lines(v)[k]);
    }
}

/// A field's lines followed by a field line, or by the closing blank line,
/// read back as the field's value.
proof fn lemma_field_value_block(ls: Seq<Seq<char>>, label: Seq<char>, i: int, v: Seq<char>)
    requires
        label == why_label() || label == supersedes_label() || label == rejected_label() || label
            == risk_label(),
        body_text(v),
        0 <= i,
        i + lines(v).len() <= ls.len(),
        ls.subrange(i, i + lines(v).len()) == field_lines(label, v),
        forall|j: int| 0 <= j < i ==> !starts_with(#[trigger] ls[j], label),
        (i + lines(v).len() < ls.len() && is_field_line(ls[i + lines(v).len()])) || (i + lines(
            v,
        ).len() + 1 == ls.len() && ls[i + lines(v).len()] == Seq::<char>::empty()),
    ensures
        field_value(ls, label) == Some(v),
{
    lemma_literals();
    lemma_body_text(v);
    lemma_field_lines_shape(label, v);
    let n = lines(v).len() as int;
    let lv = lines(v);
    let l0 = lv[0];
    let fl = field_lines(label, v);
    assert(ls[i] == fl[0]) by {
        assert(ls.subrange(i, i + n)[0] == ls[i]);
    }
    assert(ls[i] == label + " "@ + l0);
    assert forall|k: int| i + 1 <= k < i + n implies !is_field_line(#[trigger] ls[k]) by {
        assert(ls.subrange(i, i + n)[k - i] == ls[k]);
        assert(fl[k - i] == ls[k]);
    }
    lemma_first_prefixed_at(ls, label, 0, i);
    let first = ls[i].subrange(label.len() as int, ls[i].len() as int);
    assert(first =~= seq![' '] + l0);
    crate::text::lemma_trim_ws_prefix(' ', l0);
    assert(ls.subrange(i + 1, i + n) =~= lv.drop_first()) by {
        assert forall|k: int| 0 <= k < n - 1 implies ls.subrange(i + 1, i + n)[k] == lv.drop_first()[k] by {
            assert(ls.subrange(i, i + n)[k + 1] == ls[i + 1 + k]);
            assert(fl[k + 1] == lv[k + 1]);
        }
    }
    assert(seq![l0] + lv.drop_first() =~= lv);
    if i + n < ls.len() && is_field_line(ls[i + n]) {
        lemma_next_field_line_at(ls, i + 1, i + n);
        lemma_trim_trimmed(v);
    } else {
        assert(!is_field_line(Seq::<char>::empty())) by {
            lemma_heading_and_blank_lines(Seq::<char>::empty(), Seq::<char>::empty());
        }
        assert forall|k: int| i + 1 <= k < ls.len() implies !is_field_line(#[trigger] ls[k]) by {
            if k == i + n {
                assert(ls[k] == Seq::<char>::empty());
            }
        }
        lemma_next_field_line_none(ls, i + 1);
        let parts = seq![l0] + ls.subrange(i + 1, ls.len() as int);
        assert(parts =~= lv + seq![Seq::<char>::empty()]);
        assert(parts.drop_last() =~= lv);
        assert(join(parts, newline()) == join(lv, newline()) + newline() + Seq::<char>::empty());
        assert(join(parts, newline()) =~= v + seq!['\n']);
        crate::text::lemma_trim_end_ws_suffix(v, '\n');
        lemma_trim_trimmed(v);
        assert(!is_ws((v + seq!['\n'])[0]));
        assert(trim_start(v + seq!['\n']) == v + seq!['\n']);
    }
}

/// Under the round-trip conditions the rendered block is the entry lines,
/// each followed by a newline.
proof fn lemma_render_is_terminated(
    date: Seq<char>,
    title: Seq<char>,
    why: Seq<char>,
    supersedes: Option<Seq<char>>,
    rejected: Option<Seq<char>>,
    risk: Option<Seq<char>>,
    tags: Seq<Seq<char>>,
)
    requires
        round_trip_inputs(date, title, why, supersedes, rejected, risk, tags),
    ensures
        render_spec(date, title, why, supersedes, rejected, risk, tags) == terminated(
            entry_lines(date, title, why, supersedes, rejected, risk, tags),
        ),
{
    lemma_literals();
    let h = heading_line(date, title);
    let fw = field_lines(why_label(), why);
    let os = opt_field_lines(supersedes_label(), supersedes);
    let or = opt_field_lines(rejected_label(), rejected);
    let ok = opt_field_lines(risk_label(), risk);
    let ot = tag_lines(tags);
    let blank = seq![Seq::<char>::empty()];
    lemma_terminated_one(h);
    lemma_terminated_one(Seq::<char>::empty());
    lemma_field_terminated(why_label(), why);
    let a = seq![h] + fw;
    lemma_terminated_append(seq![h], fw);
    lemma_terminated_append(a, os);
    lemma_terminated_append(a + os, or);
    lemma_terminated_append(a + os + or, ok);
    lemma_terminated_append(a + os + or + ok, ot);
    lemma_terminated_append(a + os + or + ok + ot, blank);
    assert(terminated(Seq::<Seq<char>>::empty()) == Seq::<char>::empty());
    assert forall|label: Seq<char>, o: Option<Seq<char>>|
        optional_body(o) implies #[trigger] terminated(opt_field_lines(label, o)) == labelled_line(
        label,
        o,
    ) by {
        match o {
            Some(v) => {
                lemma_body_text(v);
                lemma_trim_trimmed(v);
                assert(non_blank(o) == Some(v));
                lemma_field_terminated(label, v);
                assert(terminated(opt_field_lines(label, o)) =~= labelled_line(label, o));
            },
            None => {},
        }
    }
    assert(terminated(os) == labelled_line(supersedes_label(), supersedes));
    assert(terminated(or) == labelled_line(rejected_label(), rejected));
    assert(terminated(ok) == labelled_line(risk_label(), risk));
    assert forall|i: int| 0 <= i < tags.len() implies (#[trigger] tags[i]).len() > 0 && is_trimmed(
        tags[i],
    ) by {
        assert(tag_text(tags[i]));
    }
    lemma_clean_tags_clean(tags);
    if tags.len() > 0 {
        lemma_terminated_one(labelled(tags_label(), join(tags, ", "@)));
        assert(terminated(ot) =~= tags_line(tags));
    } else {
        assert(clean_tags(tags).len() == 0);
        assert(terminated(ot) =~= tags_line(tags));
    }
    assert(render_spec(date, title, why, supersedes, rejected, risk, tags) =~= terminated(
        entry_lines(date, title, why, supersedes, rejected, risk, tags),
    ));
}

/// Where each line of a rendered entry stands.
proof fn lemma_line_at(
    date: Seq<char>,
    title: Seq<char>,
    why: Seq<char>,
    supersedes: Option<Seq<char>>,
    rejected: Option<Seq<char>>,
    risk: Option<Seq<char>>,
    tags: Seq<Seq<char>>,
    j: int,
)
    requires
        0 <= j < entry_lines(date, title, why, supersedes, rejected, risk, tags).len(),
    ensures
        ({
            let ls = entry_lines(date, title, why, supersedes, rejected, risk, tags);
            let fw = field_lines(why_label(), why);
            let fs = opt_field_lines(supersedes_label(), supersedes);
            let fr = opt_field_lines(rejected_label(), rejected);
            let fk = opt_field_lines(risk_label(), risk);
            let ft = tag_lines(tags);
            let b: int = 1 + fw.len() as int;
            let c: int = b + fs.len();
            let d: int = c + fr.len();
            let e: int = d + fk.len();
            let f: int = e + ft.len();
            &&& ls.len() == f + 1
            &&& j == 0 ==> ls[j] == heading_line(date, title)
            &&& 1 <= j < b ==> ls[j] == fw[j - 1]
            &&& b <= j < c ==> ls[j] == fs[j - b]
            &&& c <= j < d ==> ls[j] == fr[j - c]
            &&& d <= j < e ==> ls[j] == fk[j - d]
            &&& e <= j < f ==> ls[j] == ft[j - e]
            &&& j == f ==> ls[j] == Seq::<char>::empty()
        }),
{
}

/// Every entry line is plain, so splitting the rendered block into lines
/// gives the entry lines back.
proof fn lemma_lines_of_render(
    date: Seq<char>,
    title: Seq<char>,
    why: Seq<char>,
    supersedes: Option<Seq<char>>,
    rejected: Option<Seq<char>>,
    risk: Option<Seq<char>>,
    tags: Seq<Seq<char>>,
)
    requires
        round_trip_inputs(date, title, why, supersedes, rejected, risk, tags),
    ensures
        lines(render_spec(date, title, why, supersedes, rejected, risk, tags)) == entry_lines(
            date,
            title,
            why,
            supersedes,
            rejected,
            risk,
            tags,
        ),
{
    lemma_render_is_terminated(date, title, why, supersedes, rejected, risk, tags);
    lemma_no_newline_in_labels();
    let ls = entry_lines(date, title, why, supersedes, rejected, risk, tags);
    let h = heading_line(date, title);
    assert(!has_char(date, '\n')) by {
        if has_char(date, '\n') {
            let j = choose|j: int| 0 <= j < date.len() && date[j] == '\n';
            assert(j != 4 && j != 7);
            assert(crate::is_digit(date[j]));
        }
    }
    lemma_has_char_concat(heading_marker(), date, '\n');
    lemma_has_char_concat(heading_marker() + date, title_separator(), '\n');
    lemma_has_char_concat(heading_marker() + date + title_separator(), title, '\n');
    assert(h.last() == title.last());
    assert(plain_line(h));
    lemma_field_lines_plain(why_label(), why);
    match supersedes {
        Some(v) => lemma_field_lines_plain(supersedes_label(), v),
        None => {},
    }
    match rejected {
        Some(v) => lemma_field_lines_plain(rejected_label(), v),
        None => {},
    }
    match risk {
        Some(v) => lemma_field_lines_plain(risk_label(), v),
        None => {},
    }
    if tags.len() > 0 {
        assert forall|i: int| 0 <= i < tags.len() implies !has_char(#[trigger] tags[i], '\n') by {
            assert(tag_text(tags[i]));
        }
        lemma_join_tags_no_newline(tags);
        let j = join(tags, ", "@);
        assert(tags.last().len() > 0);
        assert(tag_text(tags.last()));
        if tags.len() == 1 {
            assert(j == tags[0]);
        } else {
            assert(j == join(tags.drop_last(), ", "@) + ", "@ + tags.last());
        }
        assert(j.len() > 0 && j.last() == tags.last().last());
        lemma_literals();
        lemma_has_char_concat(tags_label(), " "@, '\n');
        lemma_has_char_concat(tags_label() + " "@, j, '\n');
        assert(labelled(tags_label(), j).last() == j.last());
        assert(plain_line(labelled(tags_label(), j)));
    }
    assert(plain_line(Seq::<char>::empty()));
    assert forall|i: int| 0 <= i < ls.len() implies plain_line(#[trigger] ls[i]) by {
        lemma_line_at(date, title, why, supersedes, rejected, risk, tags, i);
    }
    lemma_lines_terminated(ls);
}

/// Only the first line of a field starts with its label, and no other line
/// starts with a label.
proof fn lemma_label_positions(
    date: Seq<char>,
    title: Seq<char>,
    why: Seq<char>,
    supersedes: Option<Seq<char>>,
    rejected: Option<Seq<char>>,
    risk: Option<Seq<char>>,
    tags: Seq<Seq<char>>,
)
    requires
        round_trip_inputs(date, title, why, supersedes, rejected, risk, tags),
    ensures
        ({
            let ls = entry_lines(date, title, why, supersedes, rejected, risk, tags);
            let b: int = 1 + field_lines(why_label(), why).len() as int;
            let c: int = b + opt_field_lines(supersedes_label(), supersedes).len();
            let d: int = c + opt_field_lines(rejected_label(), rejected).len();
            let e: int = d + opt_field_lines(risk_label(), risk).len();
            forall|j: int, label: Seq<char>|
                0 <= j < ls.len() && (label == why_label() || label == supersedes_label() || label
                    == rejected_label() || label == risk_label() || label == tags_label())
                    && #[trigger] starts_with(ls[j], label) ==> (label == why_label() && j == 1) || (
                label == supersedes_label() && j == b && supersedes is Some) || (label
                    == rejected_label() && j == c && rejected is Some) || (label == risk_label()
                    && j == d && risk is Some) || (label == tags_label() && j == e && tags.len() > 0)
        }),
{
    let ls = entry_lines(date, title, why, supersedes, rejected, risk, tags);
    lemma_literals();
    lemma_heading_and_blank_lines(date, title);
    lemma_field_lines_shape(why_label(), why);
    match supersedes {
        Some(v) => lemma_field_lines_shape(supersedes_label(), v),
        None => {},
    }
    match rejected {
        Some(v) => lemma_field_lines_shape(rejected_label(), v),
        None => {},
    }
    match risk {
        Some(v) => lemma_field_lines_shape(risk_label(), v),
        None => {},
    }
    if tags.len() > 0 {
        lemma_label_line_starts(tags_label(), join(tags, ", "@));
    }
    let b: int = 1 + field_lines(why_label(), why).len() as int;
    let c: int = b + opt_field_lines(supersedes_label(), supersedes).len();
    let d: int = c + opt_field_lines(rejected_label(), rejected).len();
    let e: int = d + opt_field_lines(risk_label(), risk).len();
    assert forall|j: int, label: Seq<char>|
        0 <= j < ls.len() && (label == why_label() || label == supersedes_label() || label
            == rejected_label() || label == risk_label() || label == tags_label())
            && #[trigger] starts_with(ls[j], label) implies (label == why_label() && j == 1) || (
    label == supersedes_label() && j == b && supersedes is Some) || (label == rejected_label()
        && j == c && rejected is Some) || (label == risk_label() && j == d && risk is Some) || (
    label == tags_label() && j == e && tags.len() > 0) by {
        lemma_line_at(date, title, why, supersedes, rejected, risk, tags, j);
    }
}

/// The line where a field block ends is a field line or the closing blank line.
proof fn lemma_block_boundaries(
    date: Seq<char>,
    title: Seq<char>,
    why: Seq<char>,
    supersedes: Option<Seq<char>>,
    rejected: Option<Seq<char>>,
    risk: Option<Seq<char>>,
    tags: Seq<Seq<char>>,
)
    requires
        round_trip_inputs(date, title, why, supersedes, rejected, risk, tags),
    ensures
        ({
            let ls = entry_lines(date, title, why, supersedes, rejected, risk, tags);
            let b: int = 1 + field_lines(why_label(), why).len() as int;
            let c: int = b + opt_field_lines(supersedes_label(), supersedes).len();
            let d: int = c + opt_field_lines(rejected_label(), rejected).len();
            let e: int = d + opt_field_lines(risk_label(), risk).len();
            let f: int = e + tag_lines(tags).len();
            &&& ls.len() == f + 1
            &&& ls[f] == Seq::<char>::empty()
            &&& forall|p: int|
                (p == b || p == c || p == d || p == e) && p < f ==> is_field_line(#[trigger] ls[p])
        }),
{
    let ls = entry_lines(date, title, why, supersedes, rejected, risk, tags);
    lemma_literals();
    match supersedes {
        Some(v) => lemma_field_lines_shape(supersedes_label(), v),
        None => {},
    }
    match rejected {
        Some(v) => lemma_field_lines_shape(rejected_label(), v),
        None => {},
    }
    match risk {
        Some(v) => lemma_field_lines_shape(risk_label(), v),
        None => {},
    }
    if tags.len() > 0 {
        lemma_label_line_starts(tags_label(), join(tags, ", "@));
    }
    let b: int = 1 + field_lines(why_label(), why).len() as int;
    let c: int = b + opt_field_lines(supersedes_label(), supersedes).len();
    let d: int = c + opt_field_lines(rejected_label(), rejected).len();
    let e: int = d + opt_field_lines(risk_label(), risk).len();
    let f: int = e + tag_lines(tags).len();
    lemma_line_at(date, title, why, supersedes, rejected, risk, tags, f);
    assert forall|p: int| (p == b || p == c || p == d || p == e) && p < f implies is_field_line(
        #[trigger] ls[p],
    ) by {
        lemma_line_at(date, title, why, supersedes, rejected, risk, tags, p);
    }
}

/// The why field of a rendered entry reads back as its value.
proof fn lemma_rendered_why(
    date: Seq<char>,
    title: Seq<char>,
    why: Seq<char>,
    supersedes: Option<Seq<char>>,
    rejected: Option<Seq<char>>,
    risk: Option<Seq<char>>,
    tags: Seq<Seq<char>>,
)
    requires
        round_trip_inputs(date, title, why, supersedes, rejected, risk, tags),
    ensures
        field_value(entry_lines(date, title, why, supersedes, rejected, risk, tags), why_label()) == Some(why),
{
    let ls = entry_lines(date, title, why, supersedes, rejected, risk, tags);
    let fw = field_lines(why_label(), why);
    let fs = opt_field_lines(supersedes_label(), supersedes);
    let fr = opt_field_lines(rejected_label(), rejected);
    let fk = opt_field_lines(risk_label(), risk);
    let ft = tag_lines(tags);
    let b: int = 1 + fw.len() as int;
    let c: int = b + fs.len();
    let d: int = c + fr.len();
    let e: int = d + fk.len();
    let f: int = e + ft.len();
    lemma_literals();
    lemma_label_positions(date, title, why, supersedes, rejected, risk, tags);
    lemma_block_boundaries(date, title, why, supersedes, rejected, risk, tags);
    assert(ls.subrange(1, b) =~= fw) by {
        assert forall|k: int| 0 <= k < fw.len() implies ls.subrange(1, b)[k] == fw[k] by {
            lemma_line_at(date, title, why, supersedes, rejected, risk, tags, 1 + k);
        }
    }
    lemma_field_value_block(ls, why_label(), 1, why);
}

/// The supersedes field of a rendered entry reads back as its value.
proof fn lemma_rendered_supersedes(
    date: Seq<char>,
    title: Seq<char>,
    why: Seq<char>,
    supersedes: Option<Seq<char>>,
    rejected: Option<Seq<char>>,
    risk: Option<Seq<char>>,
    tags: Seq<Seq<char>>,
)
    requires
        round_trip_inputs(date, title, why, supersedes, rejected, risk, tags),
    ensures
        field_value(entry_lines(date, title, why, supersedes, rejected, risk, tags), supersedes_label()) == supersedes,
{
    let ls = entry_lines(date, title, why, supersedes, rejected, risk, tags);
    let fw = field_lines(why_label(), why);
    let fs = opt_field_lines(supersedes_label(), supersedes);
    let fr = opt_field_lines(rejected_label(), rejected);
    let fk = opt_field_lines(risk_label(), risk);
    let ft = tag_lines(tags);
    let b: int = 1 + fw.len() as int;
    let c: int = b + fs.len();
    let d: int = c + fr.len();
    let e: int = d + fk.len();
    let f: int = e + ft.len();
    lemma_literals();
    lemma_label_positions(date, title, why, supersedes, rejected, risk, tags);
    lemma_block_boundaries(date, title, why, supersedes, rejected, risk, tags);
    match supersedes {
        Some(v) => {
            assert(ls.subrange(b, c) =~= fs) by {
                assert forall|k: int| 0 <= k < fs.len() implies ls.subrange(b, c)[k] == fs[k] by {
                    lemma_line_at(date, title, why, supersedes, rejected, risk, tags, b + k);
                }
            }
            lemma_field_value_block(ls, supersedes_label(), b, v);
        },
        None => {
            assert forall|j: int| 0 <= j < ls.len() implies !starts_with(#[trigger] ls[j], supersedes_label()) by {
            }
            lemma_field_absent(ls, supersedes_label());
        },
    }
}

/// The rejected field of a rendered entry reads back as its value.
proof fn lemma_rendered_rejected(
    date: Seq<char>,
    title: Seq<char>,
    why: Seq<char>,
    supersedes: Option<Seq<char>>,
    rejected: Option<Seq<char>>,
    risk: Option<Seq<char>>,
    tags: Seq<Seq<char>>,
)
    requires
        round_trip_inputs(date, title, why, supersedes, rejected, risk, tags),
    ensures
        field_value(entry_lines(date, title, why, supersedes, rejected, risk, tags), rejected_label()) == rejected,
{
    let ls = entry_lines(date, title, why, supersedes, rejected, risk, tags);
    let fw = field_lines(why_label(), why);
    let fs = opt_field_lines(supersedes_label(), supersedes);
    let fr = opt_field_lines(rejected_label(), rejected);
    let fk = opt_field_lines(risk_label(), risk);
    let ft = tag_lines(tags);
    let b: int = 1 + fw.len() as int;
    let c: int = b + fs.len();
    let d: int = c + fr.len();
    let e: int = d + fk.len();
    let f: int = e + ft.len();
    lemma_literals();
    lemma_label_positions(date, title, why, supersedes, rejected, risk, tags);
    lemma_block_boundaries(date, title, why, supersedes, rejected, risk, tags);
    match rejected {
        Some(v) => {
            assert(ls.subrange(c, d) =~= fr) by {
                assert forall|k: int| 0 <= k < fr.len() implies ls.subrange(c, d)[k] == fr[k] by {
                    lemma_line_at(date, title, why, supersedes, rejected, risk, tags, c + k);
                }
            }
            lemma_field_value_block(ls, rejected_label(), c, v);
        },
        None => {
            assert forall|j: int| 0 <= j < ls.len() implies !starts_with(#[trigger] ls[j], rejected_label()) by {
            }
            lemma_field_absent(ls, rejected_label());
        },
    }
}

/// The risk field of a rendered entry reads back as its value.
proof fn lemma_rendered_risk(
    date: Seq<char>,
    title: Seq<char>,
    why: Seq<char>,
    supersedes: Option<Seq<char>>,
    rejected: Option<Seq<char>>,
    risk: Option<Seq<char>>,
    tags: Seq<Seq<char>>,
)
    requires
        round_trip_inputs(date, title, why, supersedes, rejected, risk, tags),
    ensures
        field_value(entry_lines(date, title, why, supersedes, rejected, risk, tags), risk_label()) == risk,
{
    let ls = entry_lines(date, title, why, supersedes, rejected, risk, tags);
    let fw = field_lines(why_label(), why);
    let fs = opt_field_lines(supersedes_label(), supersedes);
    let fr = opt_field_lines(rejected_label(), rejected);
    let fk = opt_field_lines(risk_label(), risk);
    let ft = tag_lines(tags);
    let b: int = 1 + fw.len() as int;
    let c: int = b + fs.len();
    let d: int = c + fr.len();
    let e: int = d + fk.len();
    let f: int = e + ft.len();
    lemma_literals();
    lemma_label_positions(date, title, why, supersedes, rejected, risk, tags);
    lemma_block_boundaries(date, title, why, supersedes, rejected, risk, tags);
    match risk {
        Some(v) => {
            assert(ls.subrange(d, e) =~= fk) by {
                assert forall|k: int| 0 <= k < fk.len() implies ls.subrange(d, e)[k] == fk[k] by {
                    lemma_line_at(date, title, why, supersedes, rejected, risk, tags, d + k);
                }
            }
            lemma_field_value_block(ls, risk_label(), d, v);
        },
        None => {
            assert forall|j: int| 0 <= j < ls.len() implies !starts_with(#[trigger] ls[j], risk_label()) by {
            }
            lemma_field_absent(ls, risk_label());
        },
    }
}

/// The tag line of a rendered entry reads back as its tags.
proof fn lemma_rendered_tags(
    date: Seq<char>,
    title: Seq<char>,
    why: Seq<char>,
    supersedes: Option<Seq<char>>,
    rejected: Option<Seq<char>>,
    risk: Option<Seq<char>>,
    tags: Seq<Seq<char>>,
)
    requires
        round_trip_inputs(date, title, why, supersedes, rejected, risk, tags),
    ensures
        block_tags(entry_lines(date, title, why, supersedes, rejected, risk, tags)) == tags,
{
    let ls = entry_lines(date, title, why, supersedes, rejected, risk, tags);
    let fw = field_lines(why_label(), why);
    let fs = opt_field_lines(supersedes_label(), supersedes);
    let fr = opt_field_lines(rejected_label(), rejected);
    let fk = opt_field_lines(risk_label(), risk);
    let ft = tag_lines(tags);
    let b: int = 1 + fw.len() as int;
    let c: int = b + fs.len();
    let d: int = c + fr.len();
    let e: int = d + fk.len();
    let f: int = e + ft.len();
    lemma_literals();
    lemma_label_positions(date, title, why, supersedes, rejected, risk, tags);
    lemma_block_boundaries(date, title, why, supersedes, rejected, risk, tags);
    if tags.len() > 0 {
        lemma_line_at(date, title, why, supersedes, rejected, risk, tags, e);
        let tl = labelled(tags_label(), join(tags, ", "@));
        lemma_label_line_starts(tags_label(), join(tags, ", "@));
        lemma_first_prefixed_at(ls, tags_label(), 0, e);
        assert(tl.subrange(9, tl.len() as int) =~= " "@ + join(tags, ", "@));
        assert forall|i: int| 0 <= i < tags.len() implies !has_char(#[trigger] tags[i], ',') by {
            assert(tag_text(tags[i]));
        }
        lemma_split_joined_tags(tags);
        assert forall|i: int| 0 <= i < tags.len() implies (#[trigger] tags[i]).len() > 0
            && is_trimmed(tags[i]) by {
            assert(tag_text(tags[i]));
        }
        lemma_clean_spaced_tags(tags);
    } else {
        assert forall|j: int| 0 <= j < ls.len() implies !starts_with(#[trigger] ls[j], tags_label()) by {
        }
        lemma_first_prefixed_none(ls, tags_label(), 0);
    }
}

/// The fields of the entry that a rendered block's lines describe.
proof fn lemma_entry_of_rendered_lines(
    date: Seq<char>,
    title: Seq<char>,
    why: Seq<char>,
    supersedes: Option<Seq<char>>,
    rejected: Option<Seq<char>>,
    risk: Option<Seq<char>>,
    tags: Seq<Seq<char>>,
)
    requires
        round_trip_inputs(date, title, why, supersedes, rejected, risk, tags),
    ensures
        ({
            let ls = entry_lines(date, title, why, supersedes, rejected, risk, tags);
            let e = entry_of(ls);
            &&& e.date == Some(date)
            &&& e.title == Some(title)
            &&& e.why == Some(why)
            &&& e.supersedes == supersedes
            &&& e.rejected == rejected
            &&& e.risk == risk
            &&& e.tags == tags
            &&& e.superseded_by == Seq::<Seq<char>>::empty()
            &&& e.raw == trim_end(join(ls, newline()))
        }),
{
    let ls = entry_lines(date, title, why, supersedes, rejected, risk, tags);
    lemma_line_at(date, title, why, supersedes, rejected, risk, tags, 0);
    assert(heading_text(ls) == heading_text(seq![heading_line(date, title)]));
    lemma_rendered_heading(date, title);
    lemma_rendered_why(date, title, why, supersedes, rejected, risk, tags);
    lemma_rendered_supersedes(date, title, why, supersedes, rejected, risk, tags);
    lemma_rendered_rejected(date, title, why, supersedes, rejected, risk, tags);
    lemma_rendered_risk(date, title, why, supersedes, rejected, risk, tags);
    lemma_rendered_tags(date, title, why, supersedes, rejected, risk, tags);
    assert(entry_of(ls).superseded_by =~= Seq::<Seq<char>>::empty());
}

/// Rendering an entry and parsing the block back gives one entry with the
/// same date, title, why, supersedes, rejected, risk and tags, no successors,
/// and the block without its trailing whitespace as `raw`. This holds for a
/// `YYYY-MM-DD` shaped date, a non-empty one-line title without surrounding
/// whitespace, a why and optional supersedes, rejected and risk values that
/// are [`body_text`] (they may span lines), and tags that are one-line text
/// without commas.
pub proof fn lemma_render_parse_round_trip(
    date: Seq<char>,
    title: Seq<char>,
    why: Seq<char>,
    supersedes: Option<Seq<char>>,
    rejected: Option<Seq<char>>,
    risk: Option<Seq<char>>,
    tags: Seq<Seq<char>>,
)
    requires
        round_trip_inputs(date, title, why, supersedes, rejected, risk, tags),
    ensures
        ({
            let block = render_spec(date, title, why, supersedes, rejected, risk, tags);
            let es = parse_spec(block);
            &&& es.len() == 1
            &&& es[0].date == Some(date)
            &&& es[0].title == Some(title)
            &&& es[0].why == Some(why)
            &&& es[0].supersedes == supersedes
            &&& es[0].rejected == rejected
            &&& es[0].risk == risk
            &&& es[0].tags == tags
            &&& es[0].superseded_by.len() == 0
            &&& es[0].raw == trim_end(block)
        }),
{
    let block = render_spec(date, title, why, supersedes, rejected, risk, tags);
    let ls = entry_lines(date, title, why, supersedes, rejected, risk, tags);
    lemma_lines_of_render(date, title, why, supersedes, rejected, risk, tags);
    lemma_heading_and_blank_lines(date, title);
    lemma_field_lines_shape(why_label(), why);
    match supersedes {
        Some(v) => lemma_field_lines_shape(supersedes_label(), v),
        None => {},
    }
    match rejected {
        Some(v) => lemma_field_lines_shape(rejected_label(), v),
        None => {},
    }
    match risk {
        Some(v) => lemma_field_lines_shape(risk_label(), v),
        None => {},
    }
    if tags.len() > 0 {
        lemma_label_line_starts(tags_label(), join(tags, ", "@));
    }
    assert forall|i: int| 0 < i < ls.len() implies !is_heading(#[trigger] ls[i]) by {
        lemma_line_at(date, title, why, supersedes, rejected, risk, tags, i);
    }
    lemma_line_at(date, title, why, supersedes, rejected, risk, tags, 0);
    lemma_blocks_single(ls);
    lemma_entry_of_rendered_lines(date, title, why, supersedes, rejected, risk, tags);
    let ev = entry_of(ls);
    let es0 = seq![ls].map_values(|bl: Seq<Seq<char>>| entry_of(bl));
    assert(es0 =~= seq![ev]);
    let es = link(es0);
    assert(matching_prior(es0, 0, ev.supersedes->0) =~= Seq::<int>::empty());
    assert(unique_target(es0, 0) is None);
    assert(successor_refs(es0, 0, 0) =~= Seq::<Seq<char>>::empty());
    assert(successor_refs(es0, 0, 1) =~= Seq::<Seq<char>>::empty());
    assert(es[0].superseded_by.len() == 0);
    // raw
    lemma_render_is_terminated(date, title, why, supersedes, rejected, risk, tags);
    lemma_terminated_join(ls);
    lemma_literals();
    lemma_trim_end_ws_suffix(join(ls, seq!['\n']), '\n');
}

/// A rendered block's lines start with its heading and form one block.
pub proof fn lemma_rendered_block(
    date: Seq<char>,
    title: Seq<char>,
    why: Seq<char>,
    supersedes: Option<Seq<char>>,
    rejected: Option<Seq<char>>,
    risk: Option<Seq<char>>,
    tags: Seq<Seq<char>>,
)
    requires
        round_trip_inputs(date, title, why, supersedes, rejected, risk, tags),
    ensures
        ({
            let ls = lines(render_spec(date, title, why, supersedes, rejected, risk, tags));
            &&& ls.len() > 0
            &&& is_heading(ls[0])
            &&& blocks(ls) == seq![ls]
        }),
{
    let ls = entry_lines(date, title, why, supersedes, rejected, risk, tags);
    lemma_lines_of_render(date, title, why, supersedes, rejected, risk, tags);
    lemma_heading_and_blank_lines(date, title);
    lemma_field_lines_shape(why_label(), why);
    match supersedes {
        Some(v) => lemma_field_lines_shape(supersedes_label(), v),
        None => {},
    }
    match rejected {
        Some(v) => lemma_field_lines_shape(rejected_label(), v),
        None => {},
    }
    match risk {
        Some(v) => lemma_field_lines_shape(risk_label(), v),
        None => {},
    }
    if tags.len() > 0 {
        lemma_label_line_starts(tags_label(), join(tags, ", "@));
    }
    assert forall|i: int| 0 < i < ls.len() implies !is_heading(#[trigger] ls[i]) by {
        lemma_line_at(date, title, why, supersedes, rejected, risk, tags, i);
    }
    lemma_line_at(date, title, why, supersedes, rejected, risk, tags, 0);
    lemma_blocks_single(ls);
}

} // verus!
