//! Appending a rendered entry to a log: the old entries stay as they were
//! and the new one follows them.
use vstd::prelude::*;

use crate::commands::{
    dated_indices, lemma_indices_in_range, supersede_pick, target_reference, titled_indices,
};
use crate::date_shaped;
use crate::parse::{
    block_tags, blocks, clean_tags, entry_of, field_value, first_prefixed, heading_date,
    heading_marker, heading_text, heading_title, is_field_line, is_heading,
    lemma_next_field_line_bound, link, matching_prior, newline, next_field_line, parse_spec, ref_of,
    rejected_label, risk_label, successor_refs, supersedes_label, tags_label, title_separator,
    unique_target, why_label, EntryView,
};
use crate::query::lemma_matching_prior_below;
use crate::roundtrip::{body_text, lemma_rendered_block, round_trip_inputs, single_line_text};
use crate::store::{render_spec, separator_for};
use crate::text::{
    char_pos, contains, ends_with, find, find_from, first_word, has_char, is_trimmed, is_ws, join,
    lemma_char_pos_bounds, lemma_find_from_at, lemma_find_from_facts, lemma_has_char_concat,
    lemma_lines_last, lemma_lines_step, lemma_trim_end_ws_suffix, lemma_ws_pos_bounds, lines,
    matches_at, split, starts_with, strip_cr, trim, trim_end, trim_start, ws_pos,
};

verus! {

/// Splitting at a newline: the lines of `a` closed by the newline, then the
/// lines of `b`.
pub proof fn lemma_lines_split(a: Seq<char>, b: Seq<char>)
    ensures
        lines(a + seq!['\n'] + b) == lines(a + seq!['\n']) + lines(b),
    decreases a.len(),
{
    lemma_char_pos_bounds(a, '\n');
    let k = char_pos(a, '\n');
    if k >= a.len() {
        lemma_lines_step(a, b);
        lemma_lines_step(a, Seq::<char>::empty());
        assert(a + seq!['\n'] + Seq::<char>::empty() =~= a + seq!['\n']);
        assert(lines(Seq::<char>::empty()) =~= Seq::<Seq<char>>::empty());
        assert(seq![strip_cr(a)] + Seq::<Seq<char>>::empty() =~= seq![strip_cr(a)]);
    } else {
        let a1 = a.subrange(0, k);
        let a2 = a.subrange(k + 1, a.len() as int);
        assert(!has_char(a1, '\n'));
        assert(a =~= a1 + seq!['\n'] + a2);
        lemma_lines_split(a2, b);
        lemma_lines_step(a1, a2 + seq!['\n'] + b);
        lemma_lines_step(a1, a2 + seq!['\n']);
        assert(a + seq!['\n'] + b =~= a1 + seq!['\n'] + (a2 + seq!['\n'] + b));
        assert(a + seq!['\n'] =~= a1 + seq!['\n'] + (a2 + seq!['\n']));
        assert(seq![strip_cr(a1)] + (lines(a2 + seq!['\n']) + lines(b)) =~= seq![strip_cr(a1)]
            + lines(a2 + seq!['\n']) + lines(b));
    }
}

/// A newline after text that ends in neither a newline nor a carriage
/// return adds no line.
pub proof fn lemma_lines_close(a: Seq<char>)
    requires
        a.len() > 0,
        a.last() != '\n',
        a.last() != '\r',
    ensures
        lines(a + seq!['\n']) == lines(a),
    decreases a.len(),
{
    lemma_char_pos_bounds(a, '\n');
    let k = char_pos(a, '\n');
    if k >= a.len() {
        lemma_lines_step(a, Seq::<char>::empty());
        assert(a + seq!['\n'] + Seq::<char>::empty() =~= a + seq!['\n']);
        assert(lines(Seq::<char>::empty()) =~= Seq::<Seq<char>>::empty());
        assert(!has_char(a, '\n'));
        lemma_lines_last(a);
        assert(seq![strip_cr(a)] + Seq::<Seq<char>>::empty() =~= seq![a]);
    } else {
        let a1 = a.subrange(0, k);
        let a2 = a.subrange(k + 1, a.len() as int);
        assert(!has_char(a1, '\n'));
        assert(a =~= a1 + seq!['\n'] + a2);
        assert(a2.len() > 0) by {
            if a2.len() == 0 {
                assert(a.last() == a[k]);
            }
        }
        assert(a2.last() == a.last());
        lemma_lines_close(a2);
        lemma_lines_step(a1, a2);
        lemma_lines_step(a1, a2 + seq!['\n']);
        assert(a + seq!['\n'] =~= a1 + seq!['\n'] + (a2 + seq!['\n']));
    }
}

/// The lines of `"\n"` and of `"\n"` before more text.
proof fn lemma_lines_newline(b: Seq<char>)
    ensures
        lines(seq!['\n'] + b) == seq![Seq::<char>::empty()] + lines(b),
{
    lemma_lines_step(Seq::<char>::empty(), b);
    assert(Seq::<char>::empty() + seq!['\n'] + b =~= seq!['\n'] + b);
    assert(strip_cr(Seq::<char>::empty()) =~= Seq::<char>::empty());
}

/// The lines of a log with a block appended: the log's lines, at most one
/// blank line, then the block's lines. The log's last line loses a
/// carriage return that no newline closed.
pub proof fn lemma_appended_lines(t: Seq<char>, blk: Seq<char>) -> (r: (
    Seq<Seq<char>>,
    Seq<Seq<char>>,
))
    ensures
        lines(t + separator_for(t) + blk) == r.0 + r.1 + lines(blk),
        r.0 == lines(t) || (r.0.len() > 0 && lines(t) == with_cr_last(r.0)),
        r.1.len() <= 1,
        forall|i: int| 0 <= i < r.1.len() ==> #[trigger] r.1[i] == Seq::<char>::empty(),
{
    reveal_strlit("\n\n");
    reveal_strlit("\r\n\r\n");
    reveal_strlit("\n");
    if t.len() == 0 {
        assert(t + separator_for(t) + blk =~= blk);
        assert(lines(t) =~= Seq::<Seq<char>>::empty());
        assert(lines(t) + Seq::<Seq<char>>::empty() + lines(blk) =~= lines(blk));
        (lines(t), Seq::<Seq<char>>::empty())
    } else if ends_with(t, "\n\n"@) || ends_with(t, "\r\n\r\n"@) {
        assert(t.last() == '\n') by {
            if ends_with(t, "\n\n"@) {
                assert(t.subrange(t.len() - 2, t.len() as int)[1] == t.last());
            } else {
                assert(t.subrange(t.len() - 4, t.len() as int)[3] == t.last());
            }
        }
        let t1 = t.drop_last();
        assert(t =~= t1 + seq!['\n']);
        assert(t + separator_for(t) + blk =~= t1 + seq!['\n'] + blk);
        lemma_lines_split(t1, blk);
        assert(lines(t) + Seq::<Seq<char>>::empty() + lines(blk) =~= lines(t) + lines(blk));
        (lines(t), Seq::<Seq<char>>::empty())
    } else if ends_with(t, "\n"@) {
        assert(t.last() == '\n') by {
            assert(t.subrange(t.len() - 1, t.len() as int)[0] == t.last());
        }
        let t1 = t.drop_last();
        assert(t =~= t1 + seq!['\n']);
        assert(separator_for(t) =~= seq!['\n']);
        assert(t + separator_for(t) + blk =~= t1 + seq!['\n'] + (seq!['\n'] + blk));
        lemma_lines_split(t1, seq!['\n'] + blk);
        lemma_lines_newline(blk);
        let e = seq![Seq::<char>::empty()];
        assert(lines(t) + (e + lines(blk)) =~= lines(t) + e + lines(blk));
        (lines(t), e)
    } else {
        assert("\n"@ =~= seq!['\n']);
        assert(t.last() != '\n') by {
            if t.last() == '\n' {
                assert(t.subrange(t.len() - 1, t.len() as int) =~= seq!['\n']);
            }
        }
        assert(separator_for(t) =~= seq!['\n', '\n']);
        assert(t + separator_for(t) + blk =~= t + seq!['\n'] + (seq!['\n'] + blk));
        lemma_lines_split(t, seq!['\n'] + blk);
        lemma_lines_newline(blk);
        let e = seq![Seq::<char>::empty()];
        let a = lines(t + seq!['\n']);
        assert(a + (e + lines(blk)) =~= a + e + lines(blk));
        if t.last() == '\r' {
            lemma_lines_close_cr(t);
        } else {
            lemma_lines_close(t);
        }
        (a, e)
    }
}

/// A heading starts a new block, so the blocks of `a + b`, when `b` starts
/// with a heading, are those of `a` followed by those of `b`.
pub proof fn lemma_blocks_append(a: Seq<Seq<char>>, b: Seq<Seq<char>>)
    requires
        b.len() > 0,
        is_heading(b[0]),
    ensures
        blocks(a + b) == blocks(a) + blocks(b),
        blocks(b).len() > 0,
    decreases b.len(),
{
    let l = b.last();
    let b1 = b.drop_last();
    assert((a + b).drop_last() =~= a + b1);
    assert((a + b).last() == l);
    if b1.len() == 0 {
        assert(b =~= seq![b[0]]);
        assert(a + b1 =~= a);
        assert(blocks(b1) =~= Seq::<Seq<Seq<char>>>::empty());
        assert(blocks(b) == blocks(b1).push(seq![l]));
        assert(blocks(a + b) =~= blocks(a) + blocks(b));
    } else {
        assert(b1[0] == b[0]);
        lemma_blocks_append(a, b1);
        let x = blocks(a);
        let y = blocks(b1);
        if is_heading(l) {
            assert(blocks(a + b) =~= blocks(a) + blocks(b));
        } else {
            assert((x + y).last() == y.last());
            assert((x + y).update((x + y).len() - 1, y.last().push(l)) =~= x + y.update(
                y.len() - 1,
                y.last().push(l),
            ));
        }
    }
}

/// Blank lines after a log's lines add no block and leave the blocks as
/// they were but for those blank lines at the end of the last one.
pub open spec fn padded_blocks(bs: Seq<Seq<Seq<char>>>, e: Seq<Seq<char>>) -> Seq<Seq<Seq<char>>> {
    if bs.len() == 0 {
        bs
    } else {
        bs.update(bs.len() - 1, bs.last() + e)
    }
}

/// The blocks of lines followed by blank lines.
pub proof fn lemma_blocks_pad(a: Seq<Seq<char>>, e: Seq<Seq<char>>)
    requires
        forall|i: int| 0 <= i < e.len() ==> #[trigger] e[i] == Seq::<char>::empty(),
    ensures
        blocks(a + e) == padded_blocks(blocks(a), e),
    decreases e.len(),
{
    reveal_strlit("## ");
    assert(!is_heading(Seq::<char>::empty()));
    if e.len() == 0 {
        assert(a + e =~= a);
        if blocks(a).len() > 0 {
            assert(blocks(a).last() + e =~= blocks(a).last());
            assert(blocks(a).update(blocks(a).len() - 1, blocks(a).last()) =~= blocks(a));
        }
    } else {
        let e1 = e.drop_last();
        assert(forall|i: int| 0 <= i < e1.len() ==> e1[i] == e[i]);
        lemma_blocks_pad(a, e1);
        assert((a + e).drop_last() =~= a + e1);
        assert((a + e).last() == Seq::<char>::empty());
        if blocks(a).len() > 0 {
            let bs = blocks(a);
            let p = padded_blocks(bs, e1);
            assert(p.last() == bs.last() + e1);
            assert(p.last().push(Seq::<char>::empty()) =~= bs.last() + e);
            assert(p.update(p.len() - 1, p.last().push(Seq::<char>::empty())) =~= padded_blocks(
                bs,
                e,
            ));
        }
    }
}

/// `first_prefixed` after one more line that does not match.
proof fn lemma_first_prefixed_push(ls: Seq<Seq<char>>, p: Seq<char>, from: int, x: Seq<char>)
    requires
        0 <= from,
        !starts_with(x, p),
    ensures
        first_prefixed(ls.push(x), p, from) == if first_prefixed(ls, p, from) < ls.len() {
            first_prefixed(ls, p, from)
        } else {
            ls.len() + 1int
        },
    decreases ls.len() + 1 - from,
{
    let l2 = ls.push(x);
    if from < ls.len() {
        assert(l2[from] == ls[from]);
        if !starts_with(ls[from], p) {
            lemma_first_prefixed_push(ls, p, from + 1, x);
            assert(first_prefixed(l2, p, from) == first_prefixed(l2, p, from + 1));
            assert(first_prefixed(ls, p, from) == first_prefixed(ls, p, from + 1));
        }
    } else if from == ls.len() {
        assert(l2[from] == x);
        assert(first_prefixed(l2, p, from) == first_prefixed(l2, p, from + 1));
        assert(first_prefixed(l2, p, from + 1) == l2.len());
    }
}

/// `next_field_line` after one more line that is no field line.
proof fn lemma_next_field_line_push(ls: Seq<Seq<char>>, from: int, x: Seq<char>)
    requires
        0 <= from,
        !is_field_line(x),
    ensures
        next_field_line(ls.push(x), from) == if next_field_line(ls, from) < ls.len() {
            next_field_line(ls, from)
        } else {
            ls.len() + 1int
        },
    decreases ls.len() + 1 - from,
{
    let l2 = ls.push(x);
    if from < ls.len() {
        assert(l2[from] == ls[from]);
        if !is_field_line(ls[from]) {
            lemma_next_field_line_push(ls, from + 1, x);
            assert(next_field_line(l2, from) == next_field_line(l2, from + 1));
            assert(next_field_line(ls, from) == next_field_line(ls, from + 1));
        }
    } else if from == ls.len() {
        assert(l2[from] == x);
        assert(next_field_line(l2, from) == next_field_line(l2, from + 1));
        assert(next_field_line(l2, from + 1) == l2.len());
    }
}

/// Leading whitespace removal, with one more character at the end.
proof fn lemma_trim_start_push(x: Seq<char>, c: char)
    requires
        is_ws(c),
    ensures
        trim_start(x).len() > 0 ==> trim_start(x + seq![c]) == trim_start(x) + seq![c],
        trim_start(x).len() == 0 ==> trim_start(x + seq![c]).len() == 0,
    decreases x.len(),
{
    if x.len() == 0 {
        assert(x + seq![c] =~= seq![c]);
        assert(seq![c].drop_first() =~= Seq::<char>::empty());
        assert(trim_start(seq![c]) == trim_start(Seq::<char>::empty()));
    } else {
        assert((x + seq![c]).drop_first() =~= x.drop_first() + seq![c]);
        assert((x + seq![c])[0] == x[0]);
        lemma_trim_start_push(x.drop_first(), c);
    }
}

/// A whitespace character at the end does not change the trimmed text.
proof fn lemma_trim_push_ws(x: Seq<char>, c: char)
    requires
        is_ws(c),
    ensures
        trim(x + seq![c]) == trim(x),
{
    lemma_trim_start_push(x, c);
    if trim_start(x).len() > 0 {
        lemma_trim_end_ws_suffix(trim_start(x), c);
    } else {
        assert(trim_start(x + seq![c]) =~= Seq::<char>::empty());
        assert(trim_start(x) =~= Seq::<char>::empty());
    }
}

/// A field reads the same with a blank line after the block.
proof fn lemma_field_value_pad(b: Seq<Seq<char>>, label: Seq<char>)
    requires
        label.len() > 0,
    ensures
        field_value(b.push(Seq::<char>::empty()), label) == field_value(b, label),
{
    let x = Seq::<char>::empty();
    let b2 = b.push(x);
    reveal_strlit("**why:**");
    reveal_strlit("**supersedes:**");
    reveal_strlit("**rejected:**");
    reveal_strlit("**risk:**");
    reveal_strlit("**tags:**");
    reveal_strlit("\n");
    assert(!is_field_line(x));
    lemma_first_prefixed_push(b, label, 0, x);
    let i = first_prefixed(b, label, 0);
    if 0 <= i < b.len() {
        lemma_next_field_line_push(b, i + 1, x);
        let end = next_field_line(b, i + 1);
        assert(b2[i] == b[i]);
        let first = trim(b[i].subrange(label.len() as int, b[i].len() as int));
        crate::parse::lemma_next_field_line_bound(b, i + 1);
        if end < b.len() {
            assert(b2.subrange(i + 1, end) =~= b.subrange(i + 1, end));
        } else {
            let parts = seq![first] + b.subrange(i + 1, end);
            let parts2 = seq![first] + b2.subrange(i + 1, b2.len() as int);
            assert(end == b.len()) by {
                crate::parse::lemma_next_field_line_bound(b, i + 1);
            }
            assert(parts2 =~= parts.push(x));
            assert(parts2.drop_last() =~= parts);
            assert(join(parts2, newline()) =~= join(parts, newline()) + seq!['\n']);
            lemma_trim_push_ws(join(parts, newline()), '\n');
        }
    }
}

/// An entry reads the same with a blank line after its block.
proof fn lemma_entry_of_pad_one(b: Seq<Seq<char>>)
    requires
        b.len() > 0,
    ensures
        entry_of(b.push(Seq::<char>::empty())) == entry_of(b),
{
    let x = Seq::<char>::empty();
    let b2 = b.push(x);
    reveal_strlit("**why:**");
    reveal_strlit("**supersedes:**");
    reveal_strlit("**rejected:**");
    reveal_strlit("**risk:**");
    reveal_strlit("**tags:**");
    reveal_strlit("\n");
    assert(b2[0] == b[0]);
    assert(heading_text(b2) == heading_text(b));
    assert(b2.drop_last() =~= b);
    assert(join(b2, newline()) =~= join(b, newline()) + seq!['\n']);
    lemma_trim_end_ws_suffix(join(b, newline()), '\n');
    lemma_field_value_pad(b, why_label());
    lemma_field_value_pad(b, supersedes_label());
    lemma_field_value_pad(b, rejected_label());
    lemma_field_value_pad(b, risk_label());
    lemma_first_prefixed_push(b, tags_label(), 0, x);
    let i = first_prefixed(b, tags_label(), 0);
    if 0 <= i < b.len() {
        assert(b2[i] == b[i]);
    }
    assert(block_tags(b2) == block_tags(b));
}

/// An entry reads the same with blank lines after its block.
proof fn lemma_entry_of_pad(b: Seq<Seq<char>>, e: Seq<Seq<char>>)
    requires
        b.len() > 0,
        forall|i: int| 0 <= i < e.len() ==> #[trigger] e[i] == Seq::<char>::empty(),
    ensures
        entry_of(b + e) == entry_of(b),
    decreases e.len(),
{
    if e.len() == 0 {
        assert(b + e =~= b);
    } else {
        let e1 = e.drop_last();
        assert(forall|i: int| 0 <= i < e1.len() ==> e1[i] == e[i]);
        lemma_entry_of_pad(b, e1);
        assert(b + e =~= (b + e1).push(Seq::<char>::empty()));
        lemma_entry_of_pad_one(b + e1);
    }
}

/// `ls` with a carriage return after its last line: what a log's last line
/// reads like while no newline has closed it yet.
pub open spec fn with_cr_last(ls: Seq<Seq<char>>) -> Seq<Seq<char>> {
    ls.update(ls.len() - 1, ls.last().push('\r'))
}

/// A carriage return at the end of a line does not change whether it starts
/// with a prefix that does not end in one.
proof fn lemma_starts_with_cr(x: Seq<char>, p: Seq<char>)
    requires
        p.len() > 0,
        p.last() != '\r',
    ensures
        starts_with(x.push('\r'), p) == starts_with(x, p),
{
    let y = x.push('\r');
    if p.len() <= x.len() {
        assert(y.subrange(0, p.len() as int) =~= x.subrange(0, p.len() as int));
    } else if p.len() == y.len() {
        if starts_with(y, p) {
            assert(y.subrange(0, p.len() as int)[p.len() - 1] == y[x.len() as int]);
        }
    }
}

/// Headings and field lines are recognised the same with a trailing
/// carriage return.
proof fn lemma_line_kind_cr(x: Seq<char>)
    ensures
        is_heading(x.push('\r')) == is_heading(x),
        is_field_line(x.push('\r')) == is_field_line(x),
        starts_with(x.push('\r'), why_label()) == starts_with(x, why_label()),
        starts_with(x.push('\r'), supersedes_label()) == starts_with(x, supersedes_label()),
        starts_with(x.push('\r'), rejected_label()) == starts_with(x, rejected_label()),
        starts_with(x.push('\r'), risk_label()) == starts_with(x, risk_label()),
        starts_with(x.push('\r'), tags_label()) == starts_with(x, tags_label()),
{
    reveal_strlit("## ");
    reveal_strlit("**why:**");
    reveal_strlit("**supersedes:**");
    reveal_strlit("**rejected:**");
    reveal_strlit("**risk:**");
    reveal_strlit("**tags:**");
    lemma_starts_with_cr(x, heading_marker());
    lemma_starts_with_cr(x, why_label());
    lemma_starts_with_cr(x, supersedes_label());
    lemma_starts_with_cr(x, rejected_label());
    lemma_starts_with_cr(x, risk_label());
    lemma_starts_with_cr(x, tags_label());
}

/// The labels of the fields: none is empty or ends in a carriage return.
proof fn lemma_labels_shape()
    ensures
        why_label().len() > 0 && why_label().last() != '\r',
        supersedes_label().len() > 0 && supersedes_label().last() != '\r',
        rejected_label().len() > 0 && rejected_label().last() != '\r',
        risk_label().len() > 0 && risk_label().last() != '\r',
        tags_label().len() > 0 && tags_label().last() != '\r',
        tags_label().len() == 9,
{
    reveal_strlit("**why:**");
    reveal_strlit("**supersedes:**");
    reveal_strlit("**rejected:**");
    reveal_strlit("**risk:**");
    reveal_strlit("**tags:**");
}

/// `first_prefixed` finds a matching line at or after `from`, if any.
proof fn lemma_first_prefixed_found(ls: Seq<Seq<char>>, p: Seq<char>, from: int)
    requires
        0 <= from,
    ensures
        first_prefixed(ls, p, from) < ls.len() ==> from <= first_prefixed(ls, p, from)
            && starts_with(ls[first_prefixed(ls, p, from)], p),
    decreases ls.len() - from,
{
    if from < ls.len() && !starts_with(ls[from], p) {
        lemma_first_prefixed_found(ls, p, from + 1);
    }
}

/// `first_prefixed` reads the same with a carriage return after the last
/// line.
proof fn lemma_first_prefixed_cr(b2: Seq<Seq<char>>, p: Seq<char>, from: int)
    requires
        b2.len() > 0,
        p.len() > 0,
        p.last() != '\r',
        0 <= from,
    ensures
        first_prefixed(with_cr_last(b2), p, from) == first_prefixed(b2, p, from),
    decreases b2.len() - from,
{
    let b = with_cr_last(b2);
    if from < b2.len() {
        if from == b2.len() - 1 {
            lemma_starts_with_cr(b2[from], p);
            assert(b[from] == b2[from].push('\r'));
        } else {
            assert(b[from] == b2[from]);
        }
        lemma_first_prefixed_cr(b2, p, from + 1);
    }
}

/// `next_field_line` reads the same with a carriage return after the last
/// line.
proof fn lemma_next_field_line_cr(b2: Seq<Seq<char>>, from: int)
    requires
        b2.len() > 0,
        0 <= from,
    ensures
        next_field_line(with_cr_last(b2), from) == next_field_line(b2, from),
    decreases b2.len() - from,
{
    let b = with_cr_last(b2);
    if from < b2.len() {
        if from == b2.len() - 1 {
            lemma_line_kind_cr(b2[from]);
            assert(b[from] == b2[from].push('\r'));
        } else {
            assert(b[from] == b2[from]);
        }
        lemma_next_field_line_cr(b2, from + 1);
    }
}

/// Joining lines whose last one ends in a carriage return.
proof fn lemma_join_cr(b2: Seq<Seq<char>>, sep: Seq<char>)
    requires
        b2.len() > 0,
    ensures
        join(with_cr_last(b2), sep) == join(b2, sep) + seq!['\r'],
{
    let b = with_cr_last(b2);
    if b2.len() == 1 {
        assert(b[0] == b2[0].push('\r'));
        assert(b2[0].push('\r') =~= b2[0] + seq!['\r']);
    } else {
        assert(b.drop_last() =~= b2.drop_last());
        assert(b.last() == b2.last().push('\r'));
        assert(join(b, sep) =~= join(b2, sep) + seq!['\r']);
    }
}

/// A search for a pattern that does not end in a carriage return is not
/// changed by one at the end of the text.
proof fn lemma_find_from_cr(h: Seq<char>, p: Seq<char>, i: int)
    requires
        p.len() > 0,
        p.last() != '\r',
    ensures
        find_from(h.push('\r'), p, i) == find_from(h, p, i),
    decreases h.len() + 2 - i,
{
    let y = h.push('\r');
    if i < 0 || i + p.len() > y.len() {
    } else if i + p.len() == y.len() {
        assert(!matches_at(y, p, i)) by {
            if matches_at(y, p, i) {
                assert(y.subrange(i, i + p.len())[p.len() - 1] == y[y.len() - 1]);
            }
        }
        assert(find_from(y, p, i + 1) is None);
    } else {
        assert(matches_at(y, p, i) == matches_at(h, p, i)) by {
            assert(y.subrange(i, i + p.len()) =~= h.subrange(i, i + p.len()));
        }
        lemma_find_from_cr(h, p, i + 1);
    }
}

/// The first word of a text is not changed by a carriage return at its end.
proof fn lemma_first_word_cr(h: Seq<char>)
    ensures
        first_word(h.push('\r')) == first_word(h),
{
    assert(h.push('\r') =~= h + seq!['\r']);
    lemma_trim_start_push(h, '\r');
    let t = trim_start(h);
    if t.len() > 0 {
        let t2 = t + seq!['\r'];
        lemma_ws_pos_bounds(t);
        lemma_ws_pos_bounds(t2);
        assert(is_ws(t2[t.len() as int]));
        let a = ws_pos(t);
        let b = ws_pos(t2);
        assert(b <= t.len());
        if a < b {
            assert(t2[a] == t[a]);
        }
        if b < a {
            assert(t2[b] == t[b]);
        }
        assert(a == b);
        assert(t2.subrange(0, b) =~= t.subrange(0, a));
    }
}

/// The date and title of a heading are not changed by a carriage return at
/// its end.
proof fn lemma_heading_cr(h: Seq<char>)
    ensures
        heading_date(h.push('\r')) == heading_date(h),
        forall|dated: bool| heading_title(h.push('\r'), dated) == heading_title(h, dated),
{
    reveal_strlit(" — ");
    let y = h.push('\r');
    assert(y =~= h + seq!['\r']);
    lemma_first_word_cr(h);
    lemma_trim_push_ws(h, '\r');
    let sep = title_separator();
    assert(sep.len() == 3 && sep.last() == ' ');
    lemma_find_from_cr(h, sep, 0);
    match find(h, sep) {
        Some(k) => {
            lemma_find_from_facts(h, sep, 0);
            let r = h.subrange(k + 3, h.len() as int);
            assert(y.subrange(k + 3, y.len() as int) =~= r + seq!['\r']);
            lemma_trim_push_ws(r, '\r');
        },
        None => {},
    }
}

/// A field reads the same with a carriage return after the block's last
/// line.
proof fn lemma_field_value_cr(b2: Seq<Seq<char>>, label: Seq<char>)
    requires
        b2.len() > 0,
        label.len() > 0,
        label.last() != '\r',
    ensures
        field_value(with_cr_last(b2), label) == field_value(b2, label),
{
    reveal_strlit("\n");
    let b = with_cr_last(b2);
    lemma_first_prefixed_cr(b2, label, 0);
    lemma_first_prefixed_found(b2, label, 0);
    let i = first_prefixed(b2, label, 0);
    if 0 <= i < b2.len() {
        lemma_next_field_line_cr(b2, i + 1);
        lemma_next_field_line_bound(b2, i + 1);
        let end = next_field_line(b2, i + 1);
        if i == b2.len() - 1 {
            assert(b[i] == b2[i].push('\r'));
            let r2 = b2[i].subrange(label.len() as int, b2[i].len() as int);
            assert(b[i].subrange(label.len() as int, b[i].len() as int) =~= r2 + seq!['\r']);
            lemma_trim_push_ws(r2, '\r');
            assert(b.subrange(i + 1, end) =~= b2.subrange(i + 1, end));
        } else {
            assert(b[i] == b2[i]);
            let first = trim(b2[i].subrange(label.len() as int, b2[i].len() as int));
            if end == b2.len() {
                let parts2 = seq![first] + b2.subrange(i + 1, end);
                let parts = seq![first] + b.subrange(i + 1, end);
                assert(parts =~= with_cr_last(parts2));
                lemma_join_cr(parts2, newline());
                lemma_trim_push_ws(join(parts2, newline()), '\r');
            } else {
                assert(b.subrange(i + 1, end) =~= b2.subrange(i + 1, end));
            }
        }
    }
}

/// Splitting text at a character other than a carriage return, with one at
/// the end: the last piece gets it.
proof fn lemma_split_cr(s: Seq<char>, c: char)
    requires
        c != '\r',
    ensures
        split(s, c).len() > 0,
        split(s.push('\r'), c) == with_cr_last(split(s, c)),
    decreases s.len(),
{
    let y = s.push('\r');
    lemma_char_pos_bounds(s, c);
    lemma_char_pos_bounds(y, c);
    let k = char_pos(s, c);
    let k2 = char_pos(y, c);
    if k < s.len() {
        if k2 < k {
            assert(y[k2] == s[k2]);
        }
        if k < k2 {
            assert(y[k] == s[k]);
        }
        assert(k2 == k);
        let rest = s.subrange(k + 1, s.len() as int);
        assert(y.subrange(0, k) =~= s.subrange(0, k));
        assert(y.subrange(k + 1, y.len() as int) =~= rest.push('\r'));
        lemma_split_cr(rest, c);
        assert(split(y, c) =~= with_cr_last(split(s, c)));
    } else {
        if k2 < s.len() {
            assert(y[k2] == s[k2]);
        }
        assert(k2 == y.len());
        assert(split(y, c) =~= with_cr_last(split(s, c)));
    }
}

/// Tag pieces read the same with a carriage return after the last one.
proof fn lemma_clean_tags_cr(p: Seq<Seq<char>>)
    requires
        p.len() > 0,
    ensures
        clean_tags(with_cr_last(p)) == clean_tags(p),
{
    let q = with_cr_last(p);
    assert(q.drop_last() =~= p.drop_last());
    assert(q.last() == p.last().push('\r'));
    assert(p.last().push('\r') =~= p.last() + seq!['\r']);
    lemma_trim_push_ws(p.last(), '\r');
}

/// The tags of a block read the same with a carriage return after its last
/// line.
proof fn lemma_block_tags_cr(b2: Seq<Seq<char>>)
    requires
        b2.len() > 0,
    ensures
        block_tags(with_cr_last(b2)) == block_tags(b2),
{
    lemma_labels_shape();
    let b = with_cr_last(b2);
    lemma_first_prefixed_cr(b2, tags_label(), 0);
    lemma_first_prefixed_found(b2, tags_label(), 0);
    let i = first_prefixed(b2, tags_label(), 0);
    if 0 <= i < b2.len() {
        if i == b2.len() - 1 {
            assert(b[i] == b2[i].push('\r'));
            let r2 = b2[i].subrange(9, b2[i].len() as int);
            assert(b[i].subrange(9, b[i].len() as int) =~= r2.push('\r'));
            lemma_split_cr(r2, ',');
            lemma_clean_tags_cr(split(r2, ','));
        } else {
            assert(b[i] == b2[i]);
        }
    }
}

/// An entry reads the same with a carriage return after its block's last
/// line.
proof fn lemma_entry_of_cr(b2: Seq<Seq<char>>)
    requires
        b2.len() > 0,
        is_heading(b2[0]),
    ensures
        entry_of(with_cr_last(b2)) == entry_of(b2),
{
    reveal_strlit("## ");
    lemma_labels_shape();
    let b = with_cr_last(b2);
    lemma_join_cr(b2, newline());
    lemma_trim_end_ws_suffix(join(b2, newline()), '\r');
    if b2.len() == 1 {
        assert(b[0] == b2[0].push('\r'));
        let h2 = heading_text(b2);
        assert(heading_text(b) =~= h2.push('\r'));
        lemma_heading_cr(h2);
    } else {
        assert(b[0] == b2[0]);
    }
    lemma_field_value_cr(b2, why_label());
    lemma_field_value_cr(b2, supersedes_label());
    lemma_field_value_cr(b2, rejected_label());
    lemma_field_value_cr(b2, risk_label());
    lemma_block_tags_cr(b2);
}

/// The blocks of lines whose last one ends in a carriage return: the same
/// blocks, the last one's last line with that carriage return.
proof fn lemma_blocks_cr(a2: Seq<Seq<char>>)
    requires
        a2.len() > 0,
    ensures
        blocks(with_cr_last(a2)).len() == blocks(a2).len(),
        blocks(a2).len() > 0 ==> blocks(a2).last().len() > 0 && blocks(with_cr_last(a2))
            == blocks(a2).update(blocks(a2).len() - 1, with_cr_last(blocks(a2).last())),
{
    let a = with_cr_last(a2);
    let l2 = a2.last();
    let l = a.last();
    assert(a.drop_last() =~= a2.drop_last());
    assert(l == l2.push('\r'));
    lemma_line_kind_cr(l2);
    let prev = blocks(a2.drop_last());
    if is_heading(l2) {
        assert(with_cr_last(seq![l2]) =~= seq![l]);
        assert(blocks(a) =~= blocks(a2).update(blocks(a2).len() - 1, with_cr_last(blocks(a2).last())));
    } else if prev.len() > 0 {
        assert(with_cr_last(prev.last().push(l2)) =~= prev.last().push(l));
        assert(blocks(a) =~= blocks(a2).update(blocks(a2).len() - 1, with_cr_last(blocks(a2).last())));
    }
}

/// Closing a line that ends in a carriage return with a newline drops that
/// carriage return from it.
pub proof fn lemma_lines_close_cr(a: Seq<char>)
    requires
        a.len() > 0,
        a.last() == '\r',
    ensures
        lines(a + seq!['\n']).len() > 0,
        lines(a) == with_cr_last(lines(a + seq!['\n'])),
    decreases a.len(),
{
    lemma_char_pos_bounds(a, '\n');
    let k = char_pos(a, '\n');
    if k >= a.len() {
        lemma_lines_step(a, Seq::<char>::empty());
        assert(a + seq!['\n'] + Seq::<char>::empty() =~= a + seq!['\n']);
        assert(lines(Seq::<char>::empty()) =~= Seq::<Seq<char>>::empty());
        assert(!has_char(a, '\n'));
        lemma_lines_last(a);
        assert(strip_cr(a) == a.drop_last());
        assert(lines(a + seq!['\n']) =~= seq![a.drop_last()]);
        assert(a.drop_last().push('\r') =~= a);
        assert(with_cr_last(seq![a.drop_last()]) =~= seq![a]);
    } else {
        let a1 = a.subrange(0, k);
        let a2 = a.subrange(k + 1, a.len() as int);
        assert(!has_char(a1, '\n'));
        assert(a =~= a1 + seq!['\n'] + a2);
        assert(a2.len() > 0) by {
            if a2.len() == 0 {
                assert(a.last() == a[k]);
            }
        }
        assert(a2.last() == a.last());
        lemma_lines_close_cr(a2);
        lemma_lines_step(a1, a2);
        lemma_lines_step(a1, a2 + seq!['\n']);
        assert(a + seq!['\n'] =~= a1 + seq!['\n'] + (a2 + seq!['\n']));
        let x = lines(a2 + seq!['\n']);
        assert(with_cr_last(seq![strip_cr(a1)] + x) =~= seq![strip_cr(a1)] + with_cr_last(x));
    }
}

/// Every block of a document's lines holds at least its heading.
proof fn lemma_blocks_nonempty(ls: Seq<Seq<char>>)
    ensures
        forall|i: int| 0 <= i < blocks(ls).len() ==> (#[trigger] blocks(ls)[i]).len() > 0,
    decreases ls.len(),
{
    if ls.len() > 0 {
        lemma_blocks_nonempty(ls.drop_last());
        let prev = blocks(ls.drop_last());
        assert forall|i: int| 0 <= i < blocks(ls).len() implies (#[trigger] blocks(ls)[i]).len()
            > 0 by {
            if i < prev.len() {
                assert(prev[i].len() > 0);
            }
        }
    }
}

/// No entry up to `t` supersedes entry `t`: links point only backward.
proof fn lemma_no_successor_yet(es: Seq<EntryView>, t: int, m: int)
    requires
        0 <= m <= t + 1,
    ensures
        successor_refs(es, t, m) == Seq::<Seq<char>>::empty(),
    decreases m,
{
    if m > 0 {
        lemma_no_successor_yet(es, t, m - 1);
        match es[m - 1].supersedes {
            Some(r) => {
                lemma_matching_prior_below(es, m - 1, r);
                if matching_prior(es, m - 1, r).len() == 1 {
                    assert(matching_prior(es, m - 1, r)[0] < m - 1);
                }
            },
            None => {},
        }
        assert(unique_target(es, m - 1) != Some(t));
    }
}

/// An entry without its successors.
pub open spec fn unlinked(e: EntryView) -> EntryView {
    EntryView { superseded_by: seq![], ..e }
}

/// Appending a rendered entry to a log with the separator that
/// [`crate::store::append_separator`] chooses keeps every earlier entry as
/// it was, but for which later decisions supersede it, and adds the
/// rendered entry, with no successor, as the last one. This holds for any
/// log text and an entry whose fields meet
/// [`crate::roundtrip::round_trip_inputs`].
pub proof fn lemma_append_adds_the_entry(
    t: Seq<char>,
    date: Seq<char>,
    title: Seq<char>,
    why: Seq<char>,
    supersedes: Option<Seq<char>>,
    rejected: Option<Seq<char>>,
    risk: Option<Seq<char>>,
    tags: Seq<Seq<char>>,
)
    requires
        round_trip_inputs(date, title, why, supersedes, rejected, risk, tags),
    ensures
        ({
            let blk = render_spec(date, title, why, supersedes, rejected, risk, tags);
            let old = parse_spec(t);
            let new = parse_spec(t + separator_for(t) + blk);
            &&& new.len() == old.len() + 1
            &&& forall|i: int| 0 <= i < old.len() ==> unlinked(#[trigger] new[i]) == unlinked(old[i])
            &&& new[old.len() as int] == parse_spec(blk)[0]
        }),
{
    let blk = render_spec(date, title, why, supersedes, rejected, risk, tags);
    let a = lines(t);
    let l = lines(blk);
    let r = lemma_appended_lines(t, blk);
    let a2 = r.0;
    let e = r.1;
    lemma_rendered_block(date, title, why, supersedes, rejected, risk, tags);
    lemma_blocks_append(a2 + e, l);
    lemma_blocks_pad(a2, e);
    lemma_blocks_nonempty(a2);
    lemma_blocks_shape(a2);
    let bs = blocks(a);
    let bs2 = blocks(a2);
    if a2 != a {
        lemma_blocks_cr(a2);
    }
    let n = bs.len() as int;
    assert(bs2.len() == n);
    let pb = padded_blocks(bs2, e);
    let nb = pb + seq![l];
    assert(blocks(lines(t + separator_for(t) + blk)) == nb);
    let m_new = nb.map_values(|b: Seq<Seq<char>>| entry_of(b));
    let m_old = bs.map_values(|b: Seq<Seq<char>>| entry_of(b));
    assert forall|i: int| 0 <= i < n implies #[trigger] m_new[i] == m_old[i] by {
        if i == n - 1 {
            assert(bs2[i].len() > 0);
            lemma_entry_of_pad(bs2[i], e);
            assert(pb[i] == bs2[i] + e);
            if a2 != a {
                assert(bs[i] == with_cr_last(bs2[i]));
                lemma_entry_of_cr(bs2[i]);
            }
        } else {
            assert(pb[i] == bs2[i]);
            assert(bs2[i] == bs[i]);
        }
    }
    let old = parse_spec(t);
    let new = parse_spec(t + separator_for(t) + blk);
    assert(old == link(m_old));
    assert(new == link(m_new));
    assert forall|i: int| 0 <= i < n implies unlinked(#[trigger] new[i]) == unlinked(old[i]) by {
        assert(new[i] == EntryView { superseded_by: successor_refs(m_new, i, n + 1), ..m_new[i] });
        assert(old[i] == EntryView { superseded_by: successor_refs(m_old, i, n), ..m_old[i] });
    }
    lemma_no_successor_yet(m_new, n, n + 1);
    let one = seq![l].map_values(|b: Seq<Seq<char>>| entry_of(b));
    lemma_no_successor_yet(one, 0, 1);
    assert(parse_spec(blk) == link(one));
    assert(m_new[n] == entry_of(l));
    assert(one[0] == entry_of(l));
    assert(new[n] =~= parse_spec(blk)[0]);
}

/// The lines of any text hold no newline.
proof fn lemma_lines_no_newline(s: Seq<char>)
    ensures
        forall|i: int| 0 <= i < lines(s).len() ==> !has_char(#[trigger] lines(s)[i], '\n'),
    decreases s.len(),
{
    if s.len() > 0 {
        lemma_char_pos_bounds(s, '\n');
        let k = char_pos(s, '\n');
        if k >= s.len() {
            assert(lines(s) == seq![s]);
            assert(!has_char(s, '\n'));
        } else {
            let cur = s.subrange(0, k);
            let rest = s.subrange(k + 1, s.len() as int);
            assert(!has_char(cur, '\n'));
            assert(!has_char(strip_cr(cur), '\n')) by {
                if has_char(strip_cr(cur), '\n') {
                    let j = choose|j: int| 0 <= j < strip_cr(cur).len() && strip_cr(cur)[j] == '\n';
                    assert(cur[j] == '\n');
                }
            }
            lemma_lines_no_newline(rest);
            assert(lines(s) == seq![strip_cr(cur)] + lines(rest));
            assert forall|i: int| 0 <= i < lines(s).len() implies !has_char(
                #[trigger] lines(s)[i],
                '\n',
            ) by {
                if i > 0 {
                    assert(lines(s)[i] == lines(rest)[i - 1]);
                }
            }
        }
    }
}

/// Each block starts with a heading, and holds no newline when the lines
/// hold none.
proof fn lemma_blocks_shape(ls: Seq<Seq<char>>)
    ensures
        forall|k: int| 0 <= k < blocks(ls).len() ==> (#[trigger] blocks(ls)[k]).len() > 0
            && is_heading(blocks(ls)[k][0]),
        (forall|i: int| 0 <= i < ls.len() ==> !has_char(#[trigger] ls[i], '\n')) ==> forall|
            k: int,
            j: int,
        | 0 <= k < blocks(ls).len() && 0 <= j < blocks(ls)[k].len() ==> !has_char(
            #[trigger] blocks(ls)[k][j],
            '\n',
        ),
    decreases ls.len(),
{
    if ls.len() > 0 {
        let dl = ls.drop_last();
        lemma_blocks_shape(dl);
        let prev = blocks(dl);
        let l = ls.last();
        assert forall|k: int| 0 <= k < blocks(ls).len() implies (#[trigger] blocks(ls)[k]).len()
            > 0 && is_heading(blocks(ls)[k][0]) by {
            if k < prev.len() {
                assert(prev[k].len() > 0);
                if !is_heading(l) && k == prev.len() - 1 {
                    assert(blocks(ls)[k] == prev[k].push(l));
                    assert(blocks(ls)[k][0] == prev[k][0]);
                }
            }
        }
        if forall|i: int| 0 <= i < ls.len() ==> !has_char(#[trigger] ls[i], '\n') {
            assert(forall|i: int| 0 <= i < dl.len() ==> dl[i] == ls[i]);
            assert(!has_char(l, '\n'));
            assert forall|k: int, j: int|
                0 <= k < blocks(ls).len() && 0 <= j < blocks(ls)[k].len() implies !has_char(
                #[trigger] blocks(ls)[k][j],
                '\n',
            ) by {
                if k < prev.len() {
                    if !is_heading(l) && k == prev.len() - 1 {
                        assert(blocks(ls)[k] == prev[k].push(l));
                        if j < prev[k].len() {
                            assert(blocks(ls)[k][j] == prev[k][j]);
                        }
                    } else {
                        assert(blocks(ls)[k] == prev[k]);
                    }
                } else {
                    assert(blocks(ls)[k] == seq![l]);
                }
            }
        }
    }
}

/// `trim_start` keeps a suffix: no new character, and it starts with a
/// non-whitespace character when not empty.
proof fn lemma_trim_start_facts(s: Seq<char>)
    ensures
        forall|c: char| has_char(trim_start(s), c) ==> has_char(s, c),
        trim_start(s).len() > 0 ==> !is_ws(trim_start(s)[0]) && trim_start(s).last() == s.last(),
    decreases s.len(),
{
    if s.len() > 0 && is_ws(s[0]) {
        lemma_trim_start_facts(s.drop_first());
        assert forall|c: char| has_char(trim_start(s), c) implies has_char(s, c) by {
            if has_char(trim_start(s), c) {
                assert(has_char(s.drop_first(), c));
                let j = choose|j: int| 0 <= j < s.drop_first().len() && s.drop_first()[j] == c;
                assert(s[j + 1] == c);
            }
        }
    }
}

/// `trim_end` keeps a prefix: no new character, and it ends with a
/// non-whitespace character when not empty.
proof fn lemma_trim_end_facts(s: Seq<char>)
    ensures
        forall|c: char| has_char(trim_end(s), c) ==> has_char(s, c),
        trim_end(s).len() > 0 ==> !is_ws(trim_end(s).last()) && trim_end(s)[0] == s[0],
    decreases s.len(),
{
    if s.len() > 0 && is_ws(s.last()) {
        lemma_trim_end_facts(s.drop_last());
        assert forall|c: char| has_char(trim_end(s), c) implies has_char(s, c) by {
            if has_char(trim_end(s), c) {
                assert(has_char(s.drop_last(), c));
                let j = choose|j: int| 0 <= j < s.drop_last().len() && s.drop_last()[j] == c;
                assert(s[j] == c);
            }
        }
    }
}

/// Trimmed text has no surrounding whitespace and no character the text
/// did not have.
proof fn lemma_trim_facts(s: Seq<char>)
    ensures
        is_trimmed(trim(s)),
        forall|c: char| has_char(trim(s), c) ==> has_char(s, c),
{
    lemma_trim_start_facts(s);
    lemma_trim_end_facts(trim_start(s));
}

/// The dates of parsed entries are `YYYY-MM-DD` shaped and their titles are
/// non-empty one-line text without surrounding whitespace.
pub proof fn lemma_parsed_heading_facts(t: Seq<char>)
    ensures
        forall|k: int|
            0 <= k < parse_spec(t).len() ==> ((#[trigger] parse_spec(t)[k]).date matches Some(d)
                ==> date_shaped(d)) && (parse_spec(t)[k].title matches Some(w) ==> single_line_text(
                w,
            )),
{
    let ls = lines(t);
    lemma_lines_no_newline(t);
    lemma_blocks_shape(ls);
    let bs = blocks(ls);
    let es = bs.map_values(|b: Seq<Seq<char>>| entry_of(b));
    assert(parse_spec(t) == link(es));
    reveal_strlit("## ");
    assert forall|k: int| 0 <= k < parse_spec(t).len() implies ((#[trigger] parse_spec(
        t,
    )[k]).date matches Some(d) ==> date_shaped(d)) && (parse_spec(t)[k].title matches Some(w)
        ==> single_line_text(w)) by {
        let b = bs[k];
        assert(parse_spec(t)[k].date == entry_of(b).date);
        assert(parse_spec(t)[k].title == entry_of(b).title);
        assert(b.len() > 0 && is_heading(b[0]));
        assert(!has_char(b[0], '\n'));
        let h = heading_text(b);
        assert(!has_char(h, '\n')) by {
            if has_char(h, '\n') {
                let j = choose|j: int| 0 <= j < h.len() && h[j] == '\n';
                assert(b[0][j + 3] == '\n');
            }
        }
        let dated = heading_date(h) is Some;
        if dated {
            match find(h, title_separator()) {
                Some(m) => {
                    lemma_find_from_facts(h, title_separator(), 0);
                    let rest = h.subrange(m + title_separator().len(), h.len() as int);
                    assert(!has_char(rest, '\n')) by {
                        if has_char(rest, '\n') {
                            let j = choose|j: int| 0 <= j < rest.len() && rest[j] == '\n';
                            assert(h[m + title_separator().len() + j] == '\n');
                        }
                    }
                    lemma_trim_facts(rest);
                },
                None => {},
            }
        } else {
            lemma_trim_facts(h);
        }
    }
}

/// The `" — "` after a date is the first one in a reference, and a date
/// alone holds none.
proof fn lemma_reference_separator(d: Seq<char>, w: Seq<char>)
    requires
        date_shaped(d),
    ensures
        find(d + title_separator() + w, title_separator()) == Some(10int),
        !contains(d, title_separator()),
{
    reveal_strlit(" — ");
    let sep = title_separator();
    assert(sep =~= seq![' ', '\u{2014}', ' ']);
    let h = d + sep + w;
    assert(h.subrange(10, 13) =~= sep);
    assert forall|j: int| 0 <= j < 10 implies !matches_at(h, sep, j) by {
        if matches_at(h, sep, j) {
            assert(h.subrange(j, j + 3)[0] == h[j]);
            assert(h[j] == d[j]);
            if j != 4 && j != 7 {
                assert(crate::is_digit(d[j]));
            }
        }
    }
    lemma_find_from_at(h, sep, 0, 10);
    lemma_find_from_facts(d, sep, 0);
    if find(d, sep) is Some {
        let k = find(d, sep)->0;
        assert(d.subrange(k, k + 3)[0] == d[k]);
        if k != 4 && k != 7 {
            assert(crate::is_digit(d[k]));
        }
    }
}

/// A `date — title` reference names one date and one title.
proof fn lemma_reference_injective(d1: Seq<char>, w1: Seq<char>, d2: Seq<char>, w2: Seq<char>)
    requires
        date_shaped(d1),
        date_shaped(d2),
        d1 + title_separator() + w1 == d2 + title_separator() + w2,
    ensures
        d1 == d2,
        w1 == w2,
{
    reveal_strlit(" — ");
    let x = d1 + title_separator() + w1;
    assert(x.subrange(0, 10) =~= d1);
    assert((d2 + title_separator() + w2).subrange(0, 10) =~= d2);
    assert(x.subrange(13, x.len() as int) =~= w1);
    assert((d2 + title_separator() + w2).subrange(13, x.len() as int) =~= w2);
}

/// The entries a `date — title` link points at are those with that date
/// and title.
proof fn lemma_matching_prior_titled(
    pre: Seq<EntryView>,
    old: Seq<EntryView>,
    n: int,
    d: Seq<char>,
    w: Seq<char>,
)
    requires
        0 <= n <= pre.len(),
        n <= old.len(),
        date_shaped(d),
        forall|k: int|
            0 <= k < n ==> (#[trigger] pre[k]).date == old[k].date && pre[k].title == old[k].title,
        forall|k: int| 0 <= k < n ==> ((#[trigger] old[k]).date matches Some(x) ==> date_shaped(x)),
    ensures
        matching_prior(pre, n, d + title_separator() + w) == titled_indices(old, d, w, n),
    decreases n,
{
    if n > 0 {
        lemma_matching_prior_titled(pre, old, n - 1, d, w);
        lemma_reference_separator(d, w);
        let r = d + title_separator() + w;
        let e = pre[n - 1];
        assert(pre[n - 1].date == old[n - 1].date);
        if e.date is Some && e.title is Some {
            if ref_of(e) == Some(r) {
                assert(date_shaped(e.date->0));
                lemma_reference_injective(e.date->0, e.title->0, d, w);
            }
        }
    }
}

/// The entries a date link points at are those with that date.
proof fn lemma_matching_prior_dated(pre: Seq<EntryView>, old: Seq<EntryView>, n: int, d: Seq<char>)
    requires
        0 <= n <= pre.len(),
        n <= old.len(),
        date_shaped(d),
        forall|k: int| 0 <= k < n ==> (#[trigger] pre[k]).date == old[k].date,
    ensures
        matching_prior(pre, n, d) == dated_indices(old, d, n),
    decreases n,
{
    if n > 0 {
        lemma_matching_prior_dated(pre, old, n - 1, d);
        lemma_reference_separator(d, Seq::<char>::empty());
        assert(pre[n - 1].date == old[n - 1].date);
    }
}

/// The entries chosen by date have that date; those chosen by date and
/// title have both, and every such entry is chosen.
proof fn lemma_chosen_members(es: Seq<EntryView>, d: Seq<char>, w: Seq<char>, n: int)
    requires
        0 <= n <= es.len(),
    ensures
        forall|k: int|
            0 <= k < dated_indices(es, d, n).len() ==> es[#[trigger] dated_indices(es, d, n)[k]].date
                == Some(d),
        forall|k: int|
            0 <= k < titled_indices(es, d, w, n).len() ==> es[#[trigger] titled_indices(
                es,
                d,
                w,
                n,
            )[k]].title == Some(w) && es[titled_indices(es, d, w, n)[k]].date == Some(d),
        titled_indices(es, d, w, n).len() <= dated_indices(es, d, n).len(),
        forall|j: int|
            0 <= j < n && es[j].date == Some(d) && es[j].title == Some(w) ==> #[trigger] titled_indices(
                es,
                d,
                w,
                n,
            ).contains(j),
    decreases n,
{
    if n > 0 {
        lemma_chosen_members(es, d, w, n - 1);
        let pd = dated_indices(es, d, n - 1);
        let pt = titled_indices(es, d, w, n - 1);
        assert forall|k: int| 0 <= k < dated_indices(es, d, n).len() implies es[#[trigger] dated_indices(
            es,
            d,
            n,
        )[k]].date == Some(d) by {
            if k < pd.len() {
                assert(dated_indices(es, d, n)[k] == pd[k]);
            }
        }
        assert forall|k: int| 0 <= k < titled_indices(es, d, w, n).len() implies es[#[trigger] titled_indices(
            es,
            d,
            w,
            n,
        )[k]].title == Some(w) && es[titled_indices(es, d, w, n)[k]].date == Some(d) by {
            if k < pt.len() {
                assert(titled_indices(es, d, w, n)[k] == pt[k]);
            }
        }
        assert forall|j: int|
            0 <= j < n && es[j].date == Some(d) && es[j].title == Some(w) implies #[trigger] titled_indices(
            es,
            d,
            w,
            n,
        ).contains(j) by {
            if j < n - 1 {
                assert(pt.contains(j));
                let m = choose|m: int| 0 <= m < pt.len() && pt[m] == j;
                assert(titled_indices(es, d, w, n)[m] == j);
            } else {
                let t = titled_indices(es, d, w, n);
                assert(t[t.len() - 1] == j);
            }
        }
    }
}

/// A decision reference, or a date alone, that a parsed entry can be named
/// by is one line of text.
proof fn lemma_target_reference_text(es: Seq<EntryView>, d: Seq<char>, i: int)
    requires
        date_shaped(d),
        es[i].title matches Some(w) ==> single_line_text(w),
    ensures
        body_text(target_reference(es, d, i)),
{
    reveal_strlit(" — ");
    assert(title_separator() =~= seq![' ', '\u{2014}', ' ']);
    let x = target_reference(es, d, i);
    assert(!has_char(d, '\n')) by {
        if has_char(d, '\n') {
            let j = choose|j: int| 0 <= j < d.len() && d[j] == '\n';
            if j != 4 && j != 7 {
                assert(crate::is_digit(d[j]));
            }
        }
    }
    assert(crate::is_digit(d[0]) && crate::is_digit(d[9]));
    match es[i].title {
        Some(w) => {
            lemma_has_char_concat(d, title_separator(), '\n');
            lemma_has_char_concat(d + title_separator(), w, '\n');
            assert(x.last() == w.last());
            assert(x[0] == d[0]);
        },
        None => {},
    }
    lemma_single_line_body(x);
}

/// One-line text is field text.
proof fn lemma_single_line_body(v: Seq<char>)
    requires
        single_line_text(v),
    ensures
        body_text(v),
{
    lemma_lines_last(v);
    assert forall|i: int| 0 <= i < v.len() - 1 implies !(v[i] == '\r' && #[trigger] v[i + 1] == '\n') by {
        if v[i + 1] == '\n' {
            assert(has_char(v, '\n'));
        }
    }
}

/// Superseding a decision and appending the new entry retires the old one:
/// the decision that [`crate::commands::supersede_target`] picks, and whose
/// reference it returns, has the new decision's `date — title` among its
/// successors once the new entry, rendered with that reference, is appended
/// with the separator [`crate::store::append_separator`] chooses. This holds
/// for any log text and new fields that meet
/// [`crate::roundtrip::round_trip_inputs`].
#[verifier::spinoff_prover]
pub proof fn lemma_supersede_retires_target(
    t: Seq<char>,
    old_date: Seq<char>,
    old_title: Option<Seq<char>>,
    date: Seq<char>,
    title: Seq<char>,
    why: Seq<char>,
    rejected: Option<Seq<char>>,
    risk: Option<Seq<char>>,
    tags: Seq<Seq<char>>,
)
    requires
        supersede_pick(parse_spec(t), old_date, old_title) is Ok,
        round_trip_inputs(date, title, why, None, rejected, risk, tags),
    ensures
        ({
            let es = parse_spec(t);
            let i = supersede_pick(es, old_date, old_title)->Ok_0;
            let x = target_reference(es, old_date, i);
            let new = parse_spec(
                t + separator_for(t) + render_spec(date, title, why, Some(x), rejected, risk, tags),
            );
            &&& 0 <= i < es.len()
            &&& new[i].superseded_by.contains(date + title_separator() + title)
        }),
{
    let es = parse_spec(t);
    let n = es.len() as int;
    let i = supersede_pick(es, old_date, old_title)->Ok_0;
    let w0 = match old_title {
        Some(w) => w,
        None => Seq::<char>::empty(),
    };
    lemma_indices_in_range(es, old_date, w0);
    lemma_chosen_members(es, old_date, w0, n);
    lemma_parsed_heading_facts(t);
    assert(0 <= i < n);
    assert(es[i].date == Some(old_date));
    assert(date_shaped(old_date));
    lemma_target_reference_text(es, old_date, i);
    let x = target_reference(es, old_date, i);
    let blk = render_spec(date, title, why, Some(x), rejected, risk, tags);
    assert(round_trip_inputs(date, title, why, Some(x), rejected, risk, tags));
    lemma_append_adds_the_entry(t, date, title, why, Some(x), rejected, risk, tags);
    crate::roundtrip::lemma_render_parse_round_trip(date, title, why, Some(x), rejected, risk, tags);
    let text = t + separator_for(t) + blk;
    let new = parse_spec(text);
    let pre = blocks(lines(text)).map_values(|b: Seq<Seq<char>>| entry_of(b));
    assert(new == link(pre));
    assert(pre.len() == n + 1);
    assert forall|k: int| 0 <= k < n implies (#[trigger] pre[k]).date == es[k].date && pre[k].title
        == es[k].title by {
        assert(unlinked(new[k]) == unlinked(es[k]));
        assert(new[k] == EntryView { superseded_by: successor_refs(pre, k, n + 1), ..pre[k] });
    }
    assert(new[n] == EntryView { superseded_by: successor_refs(pre, n, n + 1), ..pre[n] });
    assert(pre[n].supersedes == Some(x));
    assert(pre[n].date == Some(date) && pre[n].title == Some(title));
    match es[i].title {
        Some(w) => {
            lemma_matching_prior_titled(pre, es, n, old_date, w);
            lemma_chosen_members(es, old_date, w, n);
            let m = titled_indices(es, old_date, w, n);
            assert(m.contains(i));
            match old_title {
                Some(wt) => {
                    assert(es[i].title == Some(wt));
                    assert(m.len() == 1);
                },
                None => {
                    assert(dated_indices(es, old_date, n).len() == 1);
                },
            }
            assert(m.len() == 1);
            assert(m[0] == i);
            assert(matching_prior(pre, n, x) == m);
        },
        None => {
            lemma_matching_prior_dated(pre, es, n, old_date);
            match old_title {
                Some(wt) => {
                    let m = titled_indices(es, old_date, wt, n);
                    assert(m[0] == i);
                    assert(es[i].title == Some(wt));
                },
                None => {},
            }
            assert(matching_prior(pre, n, x) == dated_indices(es, old_date, n));
            assert(dated_indices(es, old_date, n).len() == 1);
        },
    }
    assert(unique_target(pre, n) == Some(i));
    let r = date + title_separator() + title;
    assert(ref_of(pre[n]) == Some(r));
    assert(successor_refs(pre, i, n + 1) == successor_refs(pre, i, n).push(r));
    assert(new[i].superseded_by == successor_refs(pre, i, n + 1));
    assert(new[i].superseded_by[successor_refs(pre, i, n).len() as int] == r);
}

} // verus!
