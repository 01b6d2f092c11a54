//! Line-oriented parser for the logbook Markdown format.
use vstd::prelude::*;

use crate::text::{
    has_char, is_trimmed, trim_start,
    chars_eq, chars_of, contains, find, find_exec, first_word, first_word_of, has_prefix, join,
    join_chars, lines, lines_of, split, split_chars, starts_with, string_of, sub_chars, trim,
    trim_chars, trim_end, trim_end_chars, views,
};
use crate::{date_shaped, date_shaped_chars};

verus! {

/// A parsed entry. `raw` preserves the original entry block for display.
#[derive(Debug, Clone, PartialEq, Eq)]
pub struct Entry {
    pub raw: String,
    pub date: Option<String>,
    pub title: Option<String>,
    pub why: Option<String>,
    pub rejected: Option<String>,
    pub risk: Option<String>,
    /// Date and, for new entries, title of the superseded decision.
    pub supersedes: Option<String>,
    pub tags: Vec<String>,
    /// Canonical references to later decisions that supersede this entry.
    pub superseded_by: Vec<String>,
}

/// The mathematical content of an [`Entry`]: every field as characters.
#[verifier::ext_equal]
pub ghost struct EntryView {
    pub raw: Seq<char>,
    pub date: Option<Seq<char>>,
    pub title: Option<Seq<char>>,
    pub why: Option<Seq<char>>,
    pub rejected: Option<Seq<char>>,
    pub risk: Option<Seq<char>>,
    pub supersedes: Option<Seq<char>>,
    pub tags: Seq<Seq<char>>,
    pub superseded_by: Seq<Seq<char>>,
}

/// The characters of an optional string.
pub open spec fn opt_view(o: Option<String>) -> Option<Seq<char>> {
    match o {
        Some(s) => Some(s@),
        None => None,
    }
}

/// The characters of each string in `v`.
pub open spec fn strings_view(v: Seq<String>) -> Seq<Seq<char>> {
    Seq::new(v.len(), |i: int| v[i]@)
}

impl View for Entry {
    type V = EntryView;

    open spec fn view(&self) -> EntryView {
        EntryView {
            raw: self.raw@,
            date: opt_view(self.date),
            title: opt_view(self.title),
            why: opt_view(self.why),
            rejected: opt_view(self.rejected),
            risk: opt_view(self.risk),
            supersedes: opt_view(self.supersedes),
            tags: strings_view(self.tags@),
            superseded_by: strings_view(self.superseded_by@),
        }
    }
}

/// The views of a sequence of entries.
pub open spec fn entries_view(es: Seq<Entry>) -> Seq<EntryView> {
    Seq::new(es.len(), |i: int| es[i]@)
}

/// `"## "`, the marker that opens an entry.
pub open spec fn heading_marker() -> Seq<char> {
    "## "@
}

/// `" — "`, the separator between a date and a title.
pub open spec fn title_separator() -> Seq<char> {
    " — "@
}

/// `"\n"`.
pub open spec fn newline() -> Seq<char> {
    "\n"@
}

pub open spec fn why_label() -> Seq<char> {
    "**why:**"@
}

pub open spec fn supersedes_label() -> Seq<char> {
    "**supersedes:**"@
}

pub open spec fn rejected_label() -> Seq<char> {
    "**rejected:**"@
}

pub open spec fn risk_label() -> Seq<char> {
    "**risk:**"@
}

pub open spec fn tags_label() -> Seq<char> {
    "**tags:**"@
}

/// Whether a line opens an entry.
pub open spec fn is_heading(l: Seq<char>) -> bool {
    starts_with(l, heading_marker())
}

/// Whether a line starts one of the five labelled fields.
pub open spec fn is_field_line(l: Seq<char>) -> bool {
    ||| starts_with(l, why_label())
    ||| starts_with(l, supersedes_label())
    ||| starts_with(l, rejected_label())
    ||| starts_with(l, risk_label())
    ||| starts_with(l, tags_label())
}

/// The entry blocks of a document's lines, in order: each starts at a heading
/// line and runs up to the next heading; lines before the first heading are
/// dropped.
pub open spec fn blocks(ls: Seq<Seq<char>>) -> Seq<Seq<Seq<char>>>
    decreases ls.len(),
{
    if ls.len() == 0 {
        seq![]
    } else {
        let prev = blocks(ls.drop_last());
        let l = ls.last();
        if is_heading(l) {
            prev.push(seq![l])
        } else if prev.len() == 0 {
            prev
        } else {
            prev.update(prev.len() - 1, prev.last().push(l))
        }
    }
}

/// The heading line of a block without its `"## "` marker.
pub open spec fn heading_text(block: Seq<Seq<char>>) -> Seq<char> {
    block[0].subrange(heading_marker().len() as int, block[0].len() as int)
}

/// The date of a heading: its first word, when that is `YYYY-MM-DD` shaped.
pub open spec fn heading_date(h: Seq<char>) -> Option<Seq<char>> {
    match first_word(h) {
        Some(w) => if date_shaped(w) {
            Some(w)
        } else {
            None
        },
        None => None,
    }
}

/// The title of a heading: after the first `" — "` for a dated heading, the
/// whole heading otherwise; trimmed, and absent when empty.
pub open spec fn heading_title(h: Seq<char>, dated: bool) -> Option<Seq<char>> {
    let t = if dated {
        match find(h, title_separator()) {
            Some(k) => Some(trim(h.subrange(k + title_separator().len(), h.len() as int))),
            None => None,
        }
    } else {
        Some(trim(h))
    };
    match t {
        Some(t) => if t.len() > 0 {
            Some(t)
        } else {
            None
        },
        None => None,
    }
}

/// Index of the first line at or after `from` that starts with `p`, or `ls.len()`.
pub open spec fn first_prefixed(ls: Seq<Seq<char>>, p: Seq<char>, from: int) -> int
    decreases ls.len() - from,
{
    if from < 0 || from >= ls.len() {
        ls.len() as int
    } else if starts_with(ls[from], p) {
        from
    } else {
        first_prefixed(ls, p, from + 1)
    }
}

/// Index of the first field line at or after `from`, or `ls.len()`.
pub open spec fn next_field_line(ls: Seq<Seq<char>>, from: int) -> int
    decreases ls.len() - from,
{
    if from < 0 || from >= ls.len() {
        ls.len() as int
    } else if is_field_line(ls[from]) {
        from
    } else {
        next_field_line(ls, from + 1)
    }
}

/// The value of the first field labelled `label`: the rest of its line,
/// trimmed, then the following lines up to the next field line, all joined
/// with newlines and trimmed; absent when there is no such line or the value
/// is empty.
pub open spec fn field_value(ls: Seq<Seq<char>>, label: Seq<char>) -> Option<Seq<char>> {
    let i = first_prefixed(ls, label, 0);
    if i >= ls.len() || i < 0 {
        None
    } else {
        let end = next_field_line(ls, i + 1);
        let first = trim(ls[i].subrange(label.len() as int, ls[i].len() as int));
        let v = trim(join(seq![first] + ls.subrange(i + 1, end), newline()));
        if v.len() == 0 {
            None
        } else {
            Some(v)
        }
    }
}

/// The pieces of a tag list, trimmed, without the empty ones.
pub open spec fn clean_tags(pieces: Seq<Seq<char>>) -> Seq<Seq<char>>
    decreases pieces.len(),
{
    if pieces.len() == 0 {
        seq![]
    } else {
        let prev = clean_tags(pieces.drop_last());
        let t = trim(pieces.last());
        if t.len() == 0 {
            prev
        } else {
            prev.push(t)
        }
    }
}

/// The tags of a block: the first `**tags:**` line split at commas.
pub open spec fn block_tags(ls: Seq<Seq<char>>) -> Seq<Seq<char>> {
    let i = first_prefixed(ls, tags_label(), 0);
    if i >= ls.len() || i < 0 {
        seq![]
    } else {
        clean_tags(split(ls[i].subrange(tags_label().len() as int, ls[i].len() as int), ','))
    }
}

/// The entry one block describes, before supersession links are derived.
pub open spec fn entry_of(block: Seq<Seq<char>>) -> EntryView {
    let h = heading_text(block);
    let date = heading_date(h);
    EntryView {
        raw: trim_end(join(block, newline())),
        date: date,
        title: heading_title(h, date is Some),
        why: field_value(block, why_label()),
        rejected: field_value(block, rejected_label()),
        risk: field_value(block, risk_label()),
        supersedes: field_value(block, supersedes_label()),
        tags: block_tags(block),
        superseded_by: seq![],
    }
}

/// The canonical `date — title` reference of an entry with both fields.
pub open spec fn ref_of(e: EntryView) -> Option<Seq<char>> {
    match (e.date, e.title) {
        (Some(d), Some(t)) => Some(d + title_separator() + t),
        _ => None,
    }
}

/// Whether entry `e` is what a `supersedes` value `r` points at: its full
/// reference when `r` holds `" — "`, its date otherwise.
pub open spec fn entry_matches(e: EntryView, r: Seq<char>) -> bool {
    if contains(r, title_separator()) {
        ref_of(e) == Some(r)
    } else {
        e.date == Some(r)
    }
}

/// The indices before `before` of the entries that `r` points at, ascending.
pub open spec fn matching_prior(es: Seq<EntryView>, before: int, r: Seq<char>) -> Seq<int>
    decreases before,
{
    if before <= 0 {
        seq![]
    } else {
        let prev = matching_prior(es, before - 1, r);
        if entry_matches(es[before - 1], r) {
            prev.push(before - 1)
        } else {
            prev
        }
    }
}

/// The single earlier entry that entry `c` supersedes, when its link
/// identifies exactly one.
pub open spec fn unique_target(es: Seq<EntryView>, c: int) -> Option<int> {
    match es[c].supersedes {
        Some(r) => {
            let m = matching_prior(es, c, r);
            if m.len() == 1 {
                Some(m[0])
            } else {
                None
            }
        },
        None => None,
    }
}

/// The references of the entries before `n` whose link uniquely identifies
/// entry `t`, in document order.
pub open spec fn successor_refs(es: Seq<EntryView>, t: int, n: int) -> Seq<Seq<char>>
    decreases n,
{
    if n <= 0 {
        seq![]
    } else {
        let prev = successor_refs(es, t, n - 1);
        if unique_target(es, n - 1) == Some(t) && ref_of(es[n - 1]) is Some {
            prev.push(ref_of(es[n - 1])->0)
        } else {
            prev
        }
    }
}

/// `es` with each entry's `superseded_by` set to its successors' references.
pub open spec fn link(es: Seq<EntryView>) -> Seq<EntryView> {
    Seq::new(
        es.len(),
        |t: int| EntryView { superseded_by: successor_refs(es, t, es.len() as int), ..es[t] },
    )
}

/// The entries of a document, in document order.
pub open spec fn parse_spec(text: Seq<char>) -> Seq<EntryView> {
    link(blocks(lines(text)).map_values(|b: Seq<Seq<char>>| entry_of(b)))
}


/// The indices of the heading lines of `ls`, ascending.
pub open spec fn heading_indices(ls: Seq<Seq<char>>) -> Seq<int>
    decreases ls.len(),
{
    if ls.len() == 0 {
        seq![]
    } else {
        let prev = heading_indices(ls.drop_last());
        if is_heading(ls.last()) {
            prev.push(ls.len() - 1)
        } else {
            prev
        }
    }
}

/// Where the block opened by the `j`-th heading ends: at the next heading,
/// or after the last line.
pub open spec fn block_end(ls: Seq<Seq<char>>, j: int) -> int {
    let h = heading_indices(ls);
    if j + 1 < h.len() {
        h[j + 1]
    } else {
        ls.len() as int
    }
}

/// The blocks of a document are its heading lines, in order, each with the
/// lines after it up to the next heading; lines before the first heading
/// belong to none.
pub proof fn lemma_blocks_by_headings(ls: Seq<Seq<char>>)
    ensures
        ({
            let h = heading_indices(ls);
            &&& blocks(ls).len() == h.len()
            &&& forall|j: int|
                0 <= j < h.len() ==> 0 <= #[trigger] h[j] < block_end(ls, j) <= ls.len()
            &&& forall|j: int| 0 <= j < h.len() ==> is_heading(ls[#[trigger] h[j]])
            &&& forall|j: int, k: int| 0 <= j < k < h.len() ==> #[trigger] h[j] < #[trigger] h[k]
            &&& forall|i: int|
                0 <= i < ls.len() && is_heading(#[trigger] ls[i]) ==> exists|j: int|
                    0 <= j < h.len() && #[trigger] h[j] == i
            &&& forall|j: int|
                0 <= j < h.len() ==> #[trigger] blocks(ls)[j] == ls.subrange(
                    h[j],
                    block_end(ls, j),
                )
        }),
    decreases ls.len(),
{
    if ls.len() > 0 {
        let p = ls.drop_last();
        let l = ls.last();
        let n = ls.len() as int;
        lemma_blocks_by_headings(p);
        let hp = heading_indices(p);
        let bp = blocks(p);
        let h = heading_indices(ls);
        let b = blocks(ls);
        assert(forall|i: int| 0 <= i < p.len() ==> p[i] == ls[i]);
        if is_heading(l) {
            assert(h == hp.push(n - 1));
            assert(b == bp.push(seq![l]));
            assert forall|j: int| 0 <= j < h.len() implies 0 <= #[trigger] h[j] < block_end(ls, j)
                <= ls.len() && b[j] == ls.subrange(h[j], block_end(ls, j)) by {
                if j < hp.len() {
                    assert(h[j] == hp[j]);
                    assert(b[j] == bp[j]);
                    if j + 1 < hp.len() {
                        assert(h[j + 1] == hp[j + 1]);
                    }
                    assert(block_end(ls, j) == block_end(p, j) || (block_end(ls, j) == n - 1
                        && block_end(p, j) == n - 1));
                    assert(ls.subrange(h[j], block_end(ls, j)) =~= p.subrange(
                        hp[j],
                        block_end(p, j),
                    ));
                } else {
                    assert(b[j] == seq![l]);
                    assert(ls.subrange(n - 1, n) =~= seq![l]);
                }
            }
            assert forall|j: int| 0 <= j < h.len() implies is_heading(ls[#[trigger] h[j]]) by {
                if j < hp.len() {
                    assert(h[j] == hp[j]);
                }
            }
            assert forall|j: int, k: int| 0 <= j < k < h.len() implies #[trigger] h[j]
                < #[trigger] h[k] by {
                assert(h[j] == hp[j]);
                if k < hp.len() {
                    assert(h[k] == hp[k]);
                }
            }
            assert forall|i: int| 0 <= i < ls.len() && is_heading(#[trigger] ls[i]) implies exists|
                j: int,
            | 0 <= j < h.len() && #[trigger] h[j] == i by {
                if i < n - 1 {
                    assert(is_heading(p[i]));
                    let j = choose|j: int| 0 <= j < hp.len() && #[trigger] hp[j] == i;
                    assert(h[j] == hp[j]);
                } else {
                    assert(h[hp.len() as int] == i);
                }
            }
        } else {
            assert(h == hp);
            assert forall|i: int| 0 <= i < ls.len() && is_heading(#[trigger] ls[i]) implies exists|
                j: int,
            | 0 <= j < h.len() && #[trigger] h[j] == i by {
                assert(i < n - 1);
                assert(is_heading(p[i]));
            }
            assert forall|j: int| 0 <= j < h.len() implies is_heading(ls[#[trigger] h[j]]) by {
                assert(is_heading(p[hp[j]]));
            }
            if bp.len() > 0 {
                let m = bp.len() - 1;
                assert(b == bp.update(m, bp.last().push(l)));
                assert forall|j: int| 0 <= j < h.len() implies 0 <= #[trigger] h[j] < block_end(
                    ls,
                    j,
                ) <= ls.len() && b[j] == ls.subrange(h[j], block_end(ls, j)) by {
                    if j < m {
                        assert(b[j] == bp[j]);
                        assert(block_end(ls, j) == block_end(p, j));
                        assert(ls.subrange(h[j], block_end(ls, j)) =~= p.subrange(
                            hp[j],
                            block_end(p, j),
                        ));
                    } else {
                        assert(block_end(p, j) == n - 1);
                        assert(block_end(ls, j) == n);
                        assert(ls.subrange(h[j], n) =~= p.subrange(hp[j], n - 1).push(l));
                    }
                }
            }
        }
    }
}

/// A document has one entry per heading line, in order, and the text of
/// entry `j` is the lines from its heading up to the next heading, joined
/// with newlines, without trailing whitespace.
pub proof fn lemma_entries_by_headings(text: Seq<char>)
    ensures
        ({
            let ls = lines(text);
            let h = heading_indices(ls);
            &&& parse_spec(text).len() == h.len()
            &&& forall|j: int|
                0 <= j < h.len() ==> (#[trigger] parse_spec(text)[j]).raw == trim_end(
                    join(ls.subrange(h[j], block_end(ls, j)), newline()),
                )
        }),
{
    let ls = lines(text);
    lemma_blocks_by_headings(ls);
    let bs = blocks(ls);
    let es = bs.map_values(|b: Seq<Seq<char>>| entry_of(b));
    assert(parse_spec(text) == link(es));
    let h = heading_indices(ls);
    assert forall|j: int| 0 <= j < h.len() implies (#[trigger] parse_spec(text)[j]).raw
        == trim_end(join(ls.subrange(h[j], block_end(ls, j)), newline())) by {
        assert(parse_spec(text)[j].raw == es[j].raw);
        assert(bs[j] == ls.subrange(h[j], block_end(ls, j)));
    }
}

proof fn lemma_blocks_single_prefix(ls: Seq<Seq<char>>, k: int)
    requires
        1 <= k <= ls.len(),
        is_heading(ls[0]),
        forall|i: int| 0 < i < ls.len() ==> !is_heading(#[trigger] ls[i]),
    ensures
        blocks(ls.take(k)) == seq![ls.take(k)],
    decreases k,
{
    if k == 1 {
        assert(ls.take(1).drop_last() =~= Seq::<Seq<char>>::empty());
        assert(blocks(Seq::<Seq<char>>::empty()) == Seq::<Seq<Seq<char>>>::empty());
        assert(ls.take(1).last() == ls[0]);
        assert(ls.take(1) =~= seq![ls[0]]);
        assert(blocks(ls.take(1)) == Seq::<Seq<Seq<char>>>::empty().push(seq![ls[0]]));
        assert(blocks(ls.take(1)) =~= seq![ls.take(1)]);
    } else {
        lemma_blocks_single_prefix(ls, k - 1);
        assert(ls.take(k).drop_last() =~= ls.take(k - 1));
        assert(ls.take(k).last() == ls[k - 1]);
        assert(!is_heading(ls[k - 1]));
        assert(ls.take(k - 1).push(ls[k - 1]) =~= ls.take(k));
        assert(blocks(ls.take(k)) =~= seq![ls.take(k)]);
    }
}

/// A heading followed only by non-heading lines forms exactly one block.
pub proof fn lemma_blocks_single(ls: Seq<Seq<char>>)
    requires
        ls.len() > 0,
        is_heading(ls[0]),
        forall|i: int| 0 < i < ls.len() ==> !is_heading(#[trigger] ls[i]),
    ensures
        blocks(ls) == seq![ls],
{
    lemma_blocks_single_prefix(ls, ls.len() as int);
    assert(ls.take(ls.len() as int) =~= ls);
}

/// `first_prefixed` finds the first matching line at or after `from`.
pub proof fn lemma_first_prefixed_at(ls: Seq<Seq<char>>, p: Seq<char>, from: int, k: int)
    requires
        0 <= from <= k < ls.len(),
        starts_with(ls[k], p),
        forall|j: int| from <= j < k ==> !starts_with(#[trigger] ls[j], p),
    ensures
        first_prefixed(ls, p, from) == k,
    decreases k - from,
{
    if from < k {
        lemma_first_prefixed_at(ls, p, from + 1, k);
    }
}

/// `first_prefixed` is `ls.len()` when no line at or after `from` matches.
pub proof fn lemma_first_prefixed_none(ls: Seq<Seq<char>>, p: Seq<char>, from: int)
    requires
        0 <= from <= ls.len(),
        forall|j: int| from <= j < ls.len() ==> !starts_with(#[trigger] ls[j], p),
    ensures
        first_prefixed(ls, p, from) == ls.len(),
    decreases ls.len() - from,
{
    if from < ls.len() {
        lemma_first_prefixed_none(ls, p, from + 1);
    }
}

/// `next_field_line` finds the first field line at or after `from`.
pub proof fn lemma_next_field_line_at(ls: Seq<Seq<char>>, from: int, k: int)
    requires
        0 <= from <= k < ls.len(),
        is_field_line(ls[k]),
        forall|j: int| from <= j < k ==> !is_field_line(#[trigger] ls[j]),
    ensures
        next_field_line(ls, from) == k,
    decreases k - from,
{
    if from < k {
        lemma_next_field_line_at(ls, from + 1, k);
    }
}

/// `next_field_line` is `ls.len()` when no line at or after `from` is a field line.
pub proof fn lemma_next_field_line_none(ls: Seq<Seq<char>>, from: int)
    requires
        0 <= from <= ls.len(),
        forall|j: int| from <= j < ls.len() ==> !is_field_line(#[trigger] ls[j]),
    ensures
        next_field_line(ls, from) == ls.len(),
    decreases ls.len() - from,
{
    if from < ls.len() {
        lemma_next_field_line_none(ls, from + 1);
    }
}

/// `next_field_line` is at most the number of lines.
pub proof fn lemma_next_field_line_bound(ls: Seq<Seq<char>>, from: int)
    ensures
        next_field_line(ls, from) <= ls.len(),
        0 <= from <= ls.len() ==> from <= next_field_line(ls, from),
    decreases ls.len() - from,
{
    if 0 <= from < ls.len() && !is_field_line(ls[from]) {
        lemma_next_field_line_bound(ls, from + 1);
    }
}

/// A field whose label starts no line is absent.
pub proof fn lemma_field_absent(ls: Seq<Seq<char>>, label: Seq<char>)
    requires
        forall|j: int| 0 <= j < ls.len() ==> !starts_with(#[trigger] ls[j], label),
    ensures
        field_value(ls, label) is None,
{
    lemma_first_prefixed_none(ls, label, 0);
}

/// Pieces that are already trimmed and non-empty survive tag cleaning as they are.
pub proof fn lemma_clean_tags_clean(t: Seq<Seq<char>>)
    requires
        forall|i: int| 0 <= i < t.len() ==> (#[trigger] t[i]).len() > 0 && is_trimmed(t[i]),
    ensures
        clean_tags(t) == t,
    decreases t.len(),
{
    if t.len() > 0 {
        assert(forall|i: int| 0 <= i < t.drop_last().len() ==> t.drop_last()[i] == t[i]);
        lemma_clean_tags_clean(t.drop_last());
        crate::text::lemma_trim_trimmed(t.last());
        assert(t.drop_last().push(t.last()) =~= t);
    }
}

/// Tags joined by `", "` after a space split back, at commas, into the tags
/// each preceded by one space.
pub proof fn lemma_split_joined_tags(t: Seq<Seq<char>>)
    requires
        t.len() > 0,
        forall|i: int| 0 <= i < t.len() ==> !has_char(#[trigger] t[i], ','),
    ensures
        split(" "@ + join(t, ", "@), ',') == Seq::new(t.len(), |i: int| " "@ + t[i]),
    decreases t.len(),
{
    reveal_strlit(" ");
    reveal_strlit(", ");
    if t.len() == 1 {
        assert(!has_char(" "@ + t[0], ',')) by {
            if has_char(" "@ + t[0], ',') {
                let j = choose|j: int| 0 <= j < (" "@ + t[0]).len() && (" "@ + t[0])[j] == ',';
                assert(t[0][j - 1] == ',');
            }
        }
        crate::text::lemma_split_last(" "@ + t[0], ',');
        assert(Seq::new(t.len(), |i: int| " "@ + t[i]) =~= seq![" "@ + t[0]]);
    } else {
        let dl = t.drop_last();
        assert(forall|i: int| 0 <= i < dl.len() ==> dl[i] == t[i]);
        lemma_split_joined_tags(dl);
        let b = " "@ + t.last();
        assert(!has_char(b, ',')) by {
            if has_char(b, ',') {
                let j = choose|j: int| 0 <= j < b.len() && b[j] == ',';
                assert(t.last()[j - 1] == ',');
            }
        }
        assert(" "@ + join(t, ", "@) =~= (" "@ + join(dl, ", "@)) + seq![','] + b);
        crate::text::lemma_split_append_back(" "@ + join(dl, ", "@), b, ',');
        assert(Seq::new(t.len(), |i: int| " "@ + t[i]) =~= Seq::new(
            dl.len(),
            |i: int| " "@ + dl[i],
        ) + seq![b]);
    }
}

/// Cleaning the space-prefixed tags recovers the tags.
pub proof fn lemma_clean_spaced_tags(t: Seq<Seq<char>>)
    requires
        forall|i: int| 0 <= i < t.len() ==> (#[trigger] t[i]).len() > 0 && is_trimmed(t[i]),
    ensures
        clean_tags(Seq::new(t.len(), |i: int| " "@ + t[i])) == t,
    decreases t.len(),
{
    reveal_strlit(" ");
    let sp = Seq::new(t.len(), |i: int| " "@ + t[i]);
    if t.len() > 0 {
        let dl = t.drop_last();
        assert(forall|i: int| 0 <= i < dl.len() ==> dl[i] == t[i]);
        lemma_clean_spaced_tags(dl);
        assert(sp.drop_last() =~= Seq::new(dl.len(), |i: int| " "@ + dl[i]));
        assert(sp.last() =~= seq![' '] + t.last());
        crate::text::lemma_trim_ws_prefix(' ', t.last());
        assert(dl.push(t.last()) =~= t);
    }
}

/// The views of a sequence of blocks of character lines.
pub open spec fn block_views(v: Seq<Vec<Vec<char>>>) -> Seq<Seq<Seq<char>>> {
    Seq::new(v.len(), |i: int| views(v[i]@))
}


/// The numbers of a sequence of indices.
pub open spec fn ints(v: Seq<usize>) -> Seq<int> {
    Seq::new(v.len(), |i: int| v[i] as int)
}

/// The literal markers of the format, as characters.
pub struct Labels {
    pub heading: Vec<char>,
    pub separator: Vec<char>,
    pub newline: Vec<char>,
    pub why: Vec<char>,
    pub supersedes: Vec<char>,
    pub rejected: Vec<char>,
    pub risk: Vec<char>,
    pub tags: Vec<char>,
}

impl Labels {
    /// Each field holds the marker it is named after.
    pub open spec fn wf(&self) -> bool {
        &&& self.heading@ == heading_marker()
        &&& self.separator@ == title_separator()
        &&& self.newline@ == newline()
        &&& self.why@ == why_label()
        &&& self.supersedes@ == supersedes_label()
        &&& self.rejected@ == rejected_label()
        &&& self.risk@ == risk_label()
        &&& self.tags@ == tags_label()
    }

    pub fn new() -> (l: Self)
        ensures
            l.wf(),
    {
        Labels {
            heading: chars_of("## "),
            separator: chars_of(" — "),
            newline: chars_of("\n"),
            why: chars_of("**why:**"),
            supersedes: chars_of("**supersedes:**"),
            rejected: chars_of("**rejected:**"),
            risk: chars_of("**risk:**"),
            tags: chars_of("**tags:**"),
        }
    }
}

/// Whether `l` starts one of the labelled fields.
pub(crate) fn field_line(l: &[char], labels: &Labels) -> (r: bool)
    requires
        labels.wf(),
    ensures
        r == is_field_line(l@),
{
    has_prefix(l, labels.why.as_slice()) || has_prefix(l, labels.supersedes.as_slice())
        || has_prefix(l, labels.rejected.as_slice()) || has_prefix(l, labels.risk.as_slice())
        || has_prefix(l, labels.tags.as_slice())
}

/// Index of the first line of `ls` at or after `from` that starts with `p`.
fn first_prefixed_index(ls: &Vec<Vec<char>>, p: &[char], from: usize) -> (i: usize)
    ensures
        i as int == first_prefixed(views(ls@), p@, from as int),
        i <= ls@.len(),
        i < ls@.len() ==> starts_with(ls@[i as int]@, p@),
{
    let mut i = from;
    if i >= ls.len() {
        return ls.len();
    }
    while i < ls.len()
        invariant
            from <= i <= ls@.len(),
            first_prefixed(views(ls@), p@, from as int) == first_prefixed(
                views(ls@),
                p@,
                i as int,
            ),
        decreases ls@.len() - i,
    {
        if has_prefix(ls[i].as_slice(), p) {
            return i;
        }
        i = i + 1;
    }
    i
}

/// Index of the first field line of `ls` at or after `from`, or `ls.len()`.
fn next_field_index(ls: &Vec<Vec<char>>, from: usize, labels: &Labels) -> (i: usize)
    requires
        labels.wf(),
    ensures
        i as int == next_field_line(views(ls@), from as int),
        from <= i || i == ls@.len(),
        i <= ls@.len(),
{
    let mut i = from;
    if i >= ls.len() {
        return ls.len();
    }
    while i < ls.len()
        invariant
            labels.wf(),
            from <= i <= ls@.len(),
            next_field_line(views(ls@), from as int) == next_field_line(views(ls@), i as int),
        decreases ls@.len() - i,
    {
        if field_line(ls[i].as_slice(), labels) {
            return i;
        }
        i = i + 1;
    }
    i
}

/// The value of the first field labelled `label`, as [`field_value`] states it.
fn text_field(block: &Vec<Vec<char>>, label: &[char], labels: &Labels) -> (r: Option<String>)
    requires
        labels.wf(),
    ensures
        opt_view(r) == field_value(views(block@), label@),
{
    let i = first_prefixed_index(block, label, 0);
    if i >= block.len() {
        return None;
    }
    let end = next_field_index(block, i + 1, labels);
    let line = &block[i];
    let rest = sub_chars(line.as_slice(), label.len(), line.len());
    let first = trim_chars(rest.as_slice());
    let mut pieces: Vec<Vec<char>> = Vec::new();
    pieces.push(first);
    let mut j = i + 1;
    assert(views(pieces@) =~= seq![first@] + views(block@).subrange(i + 1, j as int));
    while j < end
        invariant
            i + 1 <= j <= end <= block@.len(),
            views(pieces@) == seq![first@] + views(block@).subrange(i + 1, j as int),
        decreases end - j,
    {
        let copy = sub_chars(block[j].as_slice(), 0, block[j].len());
        assert(copy@ =~= block@[j as int]@);
        let ghost before = views(pieces@);
        pieces.push(copy);
        assert(views(pieces@) =~= before.push(block@[j as int]@));
        assert(views(block@).subrange(i + 1, j as int + 1) =~= views(block@).subrange(
            i + 1,
            j as int,
        ).push(block@[j as int]@));
        j = j + 1;
        assert(views(pieces@) =~= seq![first@] + views(block@).subrange(i + 1, j as int));
    }
    let joined = join_chars(&pieces, labels.newline.as_slice());
    let v = trim_chars(joined.as_slice());
    if v.len() == 0 {
        None
    } else {
        Some(string_of(v.as_slice()))
    }
}

/// The tags of a block, as [`block_tags`] states them.
fn tags_field(block: &Vec<Vec<char>>, labels: &Labels) -> (r: Vec<String>)
    requires
        labels.wf(),
    ensures
        strings_view(r@) == block_tags(views(block@)),
{
    let i = first_prefixed_index(block, labels.tags.as_slice(), 0);
    let mut out: Vec<String> = Vec::new();
    if i >= block.len() {
        assert(strings_view(out@) =~= seq![]);
        return out;
    }
    let line = &block[i];
    let value = sub_chars(line.as_slice(), labels.tags.len(), line.len());
    let pieces = split_chars(value.as_slice(), ',');
    let mut k: usize = 0;
    assert(strings_view(out@) =~= clean_tags(views(pieces@).take(0)));
    while k < pieces.len()
        invariant
            k <= pieces@.len(),
            strings_view(out@) == clean_tags(views(pieces@).take(k as int)),
        decreases pieces@.len() - k,
    {
        let t = trim_chars(pieces[k].as_slice());
        assert(views(pieces@).take(k as int + 1).drop_last() =~= views(pieces@).take(k as int));
        if t.len() > 0 {
            let ghost before = strings_view(out@);
            out.push(string_of(t.as_slice()));
            assert(strings_view(out@) =~= before.push(t@));
        }
        k = k + 1;
    }
    assert(views(pieces@).take(pieces@.len() as int) =~= views(pieces@));
    out
}

/// The title of a heading, as [`heading_title`] states it.
fn title_of(heading: &[char], dated: bool, labels: &Labels) -> (r: Option<String>)
    requires
        labels.wf(),
    ensures
        opt_view(r) == heading_title(heading@, dated),
{
    let t = if dated {
        match find_exec(heading, labels.separator.as_slice()) {
            Some(k) => {
                proof {
                    crate::text::lemma_find_from_facts(heading@, title_separator(), 0);
                }
                assert(crate::text::matches_at(heading@, title_separator(), k as int));
                let n = heading.len();
                let m = labels.separator.len();
                assert(k + m <= n);
                let after = sub_chars(heading, k + m, n);
                Some(trim_chars(after.as_slice()))
            },
            None => None,
        }
    } else {
        Some(trim_chars(heading))
    };
    match t {
        Some(t) => if t.len() > 0 {
            Some(string_of(t.as_slice()))
        } else {
            None
        },
        None => None,
    }
}

/// Build the entry that `block` describes, without supersession links.
fn make_entry(block: &Vec<Vec<char>>, labels: &Labels) -> (e: Entry)
    requires
        labels.wf(),
        block@.len() > 0,
        is_heading(block@[0]@),
    ensures
        e@ == entry_of(views(block@)),
{
    let joined = join_chars(block, labels.newline.as_slice());
    let raw_chars = trim_end_chars(joined.as_slice());
    let first = &block[0];
    let heading = sub_chars(first.as_slice(), labels.heading.len(), first.len());
    let date: Option<Vec<char>> = match first_word_of(heading.as_slice()) {
        Some(w) => if date_shaped_chars(w.as_slice()) {
            Some(w)
        } else {
            None
        },
        None => None,
    };
    let title = title_of(heading.as_slice(), date.is_some(), labels);
    let date_string = match date {
        Some(d) => Some(string_of(d.as_slice())),
        None => None,
    };
    let e = Entry {
        raw: string_of(raw_chars.as_slice()),
        date: date_string,
        title,
        why: text_field(block, labels.why.as_slice(), labels),
        rejected: text_field(block, labels.rejected.as_slice(), labels),
        risk: text_field(block, labels.risk.as_slice(), labels),
        supersedes: text_field(block, labels.supersedes.as_slice(), labels),
        tags: tags_field(block, labels),
        superseded_by: Vec::new(),
    };
    assert(strings_view(e.superseded_by@) =~= seq![]);
    assert(e@ =~= entry_of(views(block@)));
    e
}


impl Entry {
    /// Return the canonical `date — title` reference when both fields exist.
    pub fn reference(&self) -> (r: Option<String>)
        ensures
            opt_view(r) == ref_of(self@),
    {
        match (&self.date, &self.title) {
            (Some(d), Some(t)) => {
                let mut s = String::new();
                s.push_str(d.as_str());
                s.push_str(" — ");
                s.push_str(t.as_str());
                assert(s@ =~= d@ + title_separator() + t@);
                Some(s)
            },
            _ => None,
        }
    }

    /// Whether no later entry is known to supersede this decision.
    pub fn is_active(&self) -> (r: bool)
        ensures
            r == (self@.superseded_by.len() == 0),
    {
        self.superseded_by.len() == 0
    }
}

/// Whether entry `e` is what the `supersedes` value `r` points at.
fn entry_matches_exec(e: &Entry, r: &[char], titled: bool) -> (m: bool)
    requires
        titled == contains(r@, title_separator()),
    ensures
        m == entry_matches(e@, r@),
{
    if titled {
        match e.reference() {
            Some(x) => {
                let xc = chars_of(x.as_str());
                chars_eq(xc.as_slice(), r)
            },
            None => false,
        }
    } else {
        match &e.date {
            Some(d) => {
                let dc = chars_of(d.as_str());
                chars_eq(dc.as_slice(), r)
            },
            None => false,
        }
    }
}

/// Indices of the entries before `before` that `reference` points at: the
/// entries whose `date — title` equals it when it holds `" — "`, the entries
/// dated `reference` otherwise.
pub fn matching_prior_entries(entries: &[Entry], before: usize, reference: &str) -> (r: Vec<usize>)
    requires
        before <= entries@.len(),
    ensures
        ints(r@) == matching_prior(entries_view(entries@), before as int, reference@),
{
    let rc = chars_of(reference);
    let sep = chars_of(" — ");
    let titled = find_exec(rc.as_slice(), sep.as_slice()).is_some();
    let mut out: Vec<usize> = Vec::new();
    let mut i: usize = 0;
    while i < before
        invariant
            before <= entries@.len(),
            i <= before,
            rc@ == reference@,
            titled == contains(reference@, title_separator()),
            ints(out@) == matching_prior(entries_view(entries@), i as int, reference@),
        decreases before - i,
    {
        let ghost prev = ints(out@);
        if entry_matches_exec(&entries[i], rc.as_slice(), titled) {
            out.push(i);
            assert(ints(out@) =~= prev.push(i as int));
        }
        assert(entries_view(entries@)[i as int] == entries@[i as int]@);
        i = i + 1;
    }
    out
}

/// The single earlier entry that entry `c` supersedes, as [`unique_target`] states it.
pub(crate) fn unique_target_exec(entries: &[Entry], c: usize) -> (r: Option<usize>)
    requires
        c < entries@.len(),
    ensures
        match r {
            Some(t) => unique_target(entries_view(entries@), c as int) == Some(t as int),
            None => unique_target(entries_view(entries@), c as int) is None,
        },
{
    assert(entries_view(entries@)[c as int] == entries@[c as int]@);
    match &entries[c].supersedes {
        Some(r) => {
            let m = matching_prior_entries(entries, c, r.as_str());
            if m.len() == 1 {
                assert(ints(m@)[0] == m@[0] as int);
                Some(m[0])
            } else {
                None
            }
        },
        None => None,
    }
}

/// Set each entry's `superseded_by` to the references of the later entries
/// whose link identifies it uniquely.
fn link_supersessions(entries: &mut Vec<Entry>)
    ensures
        entries_view(final(entries)@) == link(entries_view(old(entries)@)),
{
    let ghost ev = entries_view(entries@);
    let n = entries.len();
    let mut targets: Vec<Option<usize>> = Vec::new();
    let mut c: usize = 0;
    while c < n
        invariant
            n == entries@.len(),
            ev == entries_view(entries@),
            c <= n,
            targets@.len() == c,
            forall|k: int|
                0 <= k < c ==> match #[trigger] targets@[k] {
                    Some(t) => unique_target(ev, k) == Some(t as int),
                    None => unique_target(ev, k) is None,
                },
        decreases n - c,
    {
        let t = unique_target_exec(entries.as_slice(), c);
        targets.push(t);
        c = c + 1;
    }
    let mut t: usize = 0;
    while t < n
        invariant
            n == entries@.len(),
            n == ev.len(),
            t <= n,
            targets@.len() == n,
            forall|k: int|
                0 <= k < n ==> match #[trigger] targets@[k] {
                    Some(x) => unique_target(ev, k) == Some(x as int),
                    None => unique_target(ev, k) is None,
                },
            forall|k: int|
                0 <= k < n ==> (#[trigger] entries@[k]@ == EntryView {
                    superseded_by: entries@[k]@.superseded_by,
                    ..ev[k]
                }),
            forall|k: int|
                0 <= k < t ==> (#[trigger] entries@[k]@).superseded_by == successor_refs(
                    ev,
                    k,
                    n as int,
                ),
        decreases n - t,
    {
        let mut refs: Vec<String> = Vec::new();
        let mut c: usize = 0;
        while c < n
            invariant
                n == entries@.len(),
                n == ev.len(),
                t < n,
                c <= n,
                targets@.len() == n,
                forall|k: int|
                    0 <= k < n ==> match #[trigger] targets@[k] {
                        Some(x) => unique_target(ev, k) == Some(x as int),
                        None => unique_target(ev, k) is None,
                    },
                forall|k: int|
                    0 <= k < n ==> (#[trigger] entries@[k]@ == EntryView {
                        superseded_by: entries@[k]@.superseded_by,
                        ..ev[k]
                    }),
                strings_view(refs@) == successor_refs(ev, t as int, c as int),
            decreases n - c,
        {
            let ghost prev = strings_view(refs@);
            assert(ref_of(entries@[c as int]@) == ref_of(ev[c as int]));
            if targets[c] == Some(t) {
                match entries[c].reference() {
                    Some(r) => {
                        refs.push(r);
                        assert(strings_view(refs@) =~= prev.push(ref_of(ev[c as int])->0));
                    },
                    None => {},
                }
            }
            c = c + 1;
        }
        let ghost before = entries@;
        entries[t].superseded_by = refs;
        assert forall|k: int| 0 <= k < n implies (#[trigger] entries@[k]@ == EntryView {
            superseded_by: entries@[k]@.superseded_by,
            ..ev[k]
        }) by {
            if k != t {
                assert(entries@[k] == before[k]);
            } else {
                assert(before[k]@ == EntryView {
                    superseded_by: before[k]@.superseded_by,
                    ..ev[k]
                });
                assert(entries@[k].raw == before[k].raw);
                assert(entries@[k].date == before[k].date);
                assert(entries@[k].title == before[k].title);
                assert(entries@[k].why == before[k].why);
                assert(entries@[k].rejected == before[k].rejected);
                assert(entries@[k].risk == before[k].risk);
                assert(entries@[k].supersedes == before[k].supersedes);
                assert(entries@[k].tags == before[k].tags);
                assert(entries@[k]@ =~= EntryView {
                    superseded_by: entries@[k]@.superseded_by,
                    ..ev[k]
                });
            }
        }
        assert forall|k: int| 0 <= k < t + 1 implies (#[trigger] entries@[k]@).superseded_by
            == successor_refs(ev, k, n as int) by {
            if k != t {
                assert(entries@[k] == before[k]);
            }
        }
        t = t + 1;
    }
    assert forall|k: int| 0 <= k < n implies #[trigger] entries_view(entries@)[k] == link(ev)[k] by {
        assert(entries_view(entries@)[k] == entries@[k]@);
        assert(entries@[k]@ =~= link(ev)[k]);
    }
    assert(entries_view(entries@) =~= link(ev));
}

/// Parse entries in document order, ignoring text before the first `## `.
pub fn parse_entries(text: &str) -> (r: Vec<Entry>)
    ensures
        entries_view(r@) == parse_spec(text@),
{
    let labels = Labels::new();
    let chars = chars_of(text);
    let ls = lines_of(chars.as_slice());
    let mut done: Vec<Vec<Vec<char>>> = Vec::new();
    let mut cur: Vec<Vec<char>> = Vec::new();
    let mut i: usize = 0;
    while i < ls.len()
        invariant
            labels.wf(),
            i <= ls@.len(),
            views(ls@) == lines(text@),
            blocks(views(ls@).take(i as int)) == block_views(done@) + (if cur@.len() == 0 {
                seq![]
            } else {
                seq![views(cur@)]
            }),
            done@.len() > 0 ==> cur@.len() > 0,
            cur@.len() > 0 ==> is_heading(cur@[0]@),
            forall|k: int|
                0 <= k < done@.len() ==> (#[trigger] done@[k])@.len() > 0 && is_heading(
                    done@[k]@[0]@,
                ),
        decreases ls@.len() - i,
    {
        let line = sub_chars(ls[i].as_slice(), 0, ls[i].len());
        assert(line@ =~= ls@[i as int]@);
        let ghost pre = views(ls@).take(i as int);
        assert(views(ls@).take(i as int + 1).drop_last() =~= pre);
        assert(views(ls@).take(i as int + 1).last() == line@);
        let ghost prev_blocks = blocks(pre);
        if has_prefix(line.as_slice(), labels.heading.as_slice()) {
            if cur.len() > 0 {
                let ghost old_done = block_views(done@);
                let ghost cv = views(cur@);
                done.push(cur);
                assert(block_views(done@) =~= old_done.push(cv));
            }
            let mut fresh: Vec<Vec<char>> = Vec::new();
            fresh.push(line);
            cur = fresh;
            assert(views(cur@) =~= seq![line@]);
            assert(blocks(views(ls@).take(i as int + 1)) =~= block_views(done@) + seq![views(cur@)]);
        } else if cur.len() > 0 {
            let ghost old_cur = views(cur@);
            cur.push(line);
            assert(views(cur@) =~= old_cur.push(line@));
            assert(blocks(views(ls@).take(i as int + 1)) =~= block_views(done@) + seq![views(cur@)]);
        } else {
        }
        i = i + 1;
    }
    if cur.len() > 0 {
        let ghost old_done = block_views(done@);
        let ghost cv = views(cur@);
        done.push(cur);
        assert(block_views(done@) =~= old_done.push(cv));
    } else {
        assert(block_views(done@) + seq![] =~= block_views(done@));
    }
    assert(views(ls@).take(ls@.len() as int) =~= views(ls@));
    let ghost bs = blocks(lines(text@));
    assert(bs == block_views(done@));
    let mut entries: Vec<Entry> = Vec::new();
    let mut k: usize = 0;
    while k < done.len()
        invariant
            labels.wf(),
            k <= done@.len(),
            bs == block_views(done@),
            forall|j: int|
                0 <= j < done@.len() ==> (#[trigger] done@[j])@.len() > 0 && is_heading(
                    done@[j]@[0]@,
                ),
            entries_view(entries@) == bs.take(k as int).map_values(
                |b: Seq<Seq<char>>| entry_of(b),
            ),
        decreases done@.len() - k,
    {
        let e = make_entry(&done[k], &labels);
        let ghost prev = entries_view(entries@);
        entries.push(e);
        assert(bs[k as int] == views(done@[k as int]@));
        assert(entries_view(entries@) =~= prev.push(e@));
        assert(entries_view(entries@) =~= bs.take(k as int + 1).map_values(
            |b: Seq<Seq<char>>| entry_of(b),
        ));
        k = k + 1;
    }
    assert(bs.take(done@.len() as int) =~= bs);
    link_supersessions(&mut entries);
    entries
}

} // verus!
