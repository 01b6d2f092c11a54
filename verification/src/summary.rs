//! Summaries of a whole log: the figures of `stats`, the tag counts of
//! `tags` and the line `check` prints when the log is sound.
use vstd::prelude::*;

use crate::export::{active_count, count_active, push_decimal};
use crate::parse::{entries_view, strings_view, Entry, EntryView};
use crate::text::{
    decimal, chars_eq, chars_lt, chars_of, has_prefix, lemma_lex_lt_irreflexive, lemma_lex_lt_total,
    lemma_lex_lt_transitive, lex_lt, lowercase, starts_with, to_lowercase, views,
};

verus! {

/// The dates of the dated entries, in order.
pub open spec fn entry_dates(es: Seq<EntryView>) -> Seq<Seq<char>>
    decreases es.len(),
{
    if es.len() == 0 {
        seq![]
    } else {
        let prev = entry_dates(es.drop_last());
        match es.last().date {
            Some(d) => prev.push(d),
            None => prev,
        }
    }
}

/// `d` is one of `ds` and none of `ds` sorts before it.
pub open spec fn is_earliest(ds: Seq<Seq<char>>, d: Seq<char>) -> bool {
    ds.contains(d) && forall|i: int| 0 <= i < ds.len() ==> !lex_lt(#[trigger] ds[i], d)
}

/// `d` is one of `ds` and none of `ds` sorts after it.
pub open spec fn is_latest(ds: Seq<Seq<char>>, d: Seq<char>) -> bool {
    ds.contains(d) && forall|i: int| 0 <= i < ds.len() ==> !lex_lt(d, #[trigger] ds[i])
}

/// How many of `ds` start with `p`.
pub open spec fn count_prefixed(ds: Seq<Seq<char>>, p: Seq<char>) -> nat
    decreases ds.len(),
{
    if ds.len() == 0 {
        0
    } else {
        count_prefixed(ds.drop_last(), p) + if starts_with(ds.last(), p) {
            1nat
        } else {
            0nat
        }
    }
}

/// Each tag lower-cased.
pub open spec fn lowered(ts: Seq<Seq<char>>) -> Seq<Seq<char>> {
    Seq::new(ts.len(), |k: int| lowercase(ts[k]))
}

/// Every tag of every entry, lower-cased, in order.
pub open spec fn folded_tags(es: Seq<EntryView>) -> Seq<Seq<char>>
    decreases es.len(),
{
    if es.len() == 0 {
        seq![]
    } else {
        folded_tags(es.drop_last()) + lowered(es.last().tags)
    }
}

/// How many tags the entries carry in all.
pub open spec fn tag_total(es: Seq<EntryView>) -> nat
    decreases es.len(),
{
    if es.len() == 0 {
        0
    } else {
        tag_total(es.drop_last()) + es.last().tags.len()
    }
}

/// Lower-casing keeps one folded tag per tag.
pub proof fn lemma_folded_len(es: Seq<EntryView>)
    ensures
        folded_tags(es).len() == tag_total(es),
    decreases es.len(),
{
    if es.len() > 0 {
        lemma_folded_len(es.drop_last());
    }
}

/// The distinct tags of a log, compared ignoring case.
pub open spec fn tag_names(es: Seq<EntryView>) -> Set<Seq<char>> {
    folded_tags(es).to_set()
}

/// The figures `stats` prints.
pub struct Stats {
    pub total: usize,
    pub active: usize,
    pub first: Option<String>,
    pub last: Option<String>,
    pub this_month: usize,
    pub unique_tags: usize,
}

/// The earliest and the latest of the dates of the entries.
fn date_range(entries: &[Entry]) -> (r: (Option<String>, Option<String>))
    ensures
        ({
            let ds = entry_dates(entries_view(entries@));
            &&& ds.len() == 0 ==> r.0 is None && r.1 is None
            &&& ds.len() > 0 ==> (r.0 matches Some(f) && is_earliest(ds, f@)) && (r.1 matches Some(
                l,
            ) && is_latest(ds, l@))
        }),
{
    let ghost es = entries_view(entries@);
    let mut first: Option<String> = None;
    let mut last: Option<String> = None;
    let mut i: usize = 0;
    while i < entries.len()
        invariant
            i <= entries@.len(),
            es == entries_view(entries@),
            ({
                let ds = entry_dates(es.take(i as int));
                &&& ds.len() == 0 ==> first is None && last is None
                &&& ds.len() > 0 ==> (first matches Some(f) && is_earliest(ds, f@)) && (
                last matches Some(l) && is_latest(ds, l@))
            }),
        decreases entries@.len() - i,
    {
        let ghost prev = entry_dates(es.take(i as int));
        assert(es.take(i + 1).drop_last() =~= es.take(i as int));
        assert(es.take(i + 1).last() == entries@[i as int]@);
        if let Some(d) = &entries[i].date {
            let ghost ds = prev.push(d@);
            assert(entry_dates(es.take(i + 1)) == ds);
            let dc = chars_of(d.as_str());
            proof {
                lemma_lex_lt_irreflexive(d@);
            }
            let new_first = match &first {
                None => true,
                Some(f) => {
                    let fc = chars_of(f.as_str());
                    chars_lt(dc.as_slice(), fc.as_slice())
                },
            };
            let new_last = match &last {
                None => true,
                Some(l) => {
                    let lc = chars_of(l.as_str());
                    chars_lt(lc.as_slice(), dc.as_slice())
                },
            };
            proof {
                if prev.len() > 0 {
                    let f = first->0@;
                    let l = last->0@;
                    assert(ds.contains(f)) by {
                        let k = choose|k: int| 0 <= k < prev.len() && prev[k] == f;
                        assert(ds[k] == f);
                    }
                    assert(ds.contains(l)) by {
                        let k = choose|k: int| 0 <= k < prev.len() && prev[k] == l;
                        assert(ds[k] == l);
                    }
                    if new_first {
                        assert forall|k: int| 0 <= k < ds.len() implies !lex_lt(
                            #[trigger] ds[k],
                            d@,
                        ) by {
                            if k < prev.len() {
                                assert(ds[k] == prev[k]);
                                if lex_lt(prev[k], d@) {
                                    lemma_lex_lt_transitive(prev[k], d@, f);
                                }
                            }
                        }
                    } else {
                        assert forall|k: int| 0 <= k < ds.len() implies !lex_lt(
                            #[trigger] ds[k],
                            f,
                        ) by {
                            if k < prev.len() {
                                assert(ds[k] == prev[k]);
                            }
                        }
                    }
                    if new_last {
                        assert forall|k: int| 0 <= k < ds.len() implies !lex_lt(
                            d@,
                            #[trigger] ds[k],
                        ) by {
                            if k < prev.len() {
                                assert(ds[k] == prev[k]);
                                if lex_lt(d@, prev[k]) {
                                    lemma_lex_lt_transitive(l, d@, prev[k]);
                                }
                            }
                        }
                    } else {
                        assert forall|k: int| 0 <= k < ds.len() implies !lex_lt(
                            l,
                            #[trigger] ds[k],
                        ) by {
                            if k < prev.len() {
                                assert(ds[k] == prev[k]);
                            }
                        }
                    }
                }
                assert(ds[ds.len() - 1] == d@);
            }
            if new_first {
                first = Some(crate::text::owned(d.as_str()));
            }
            if new_last {
                last = Some(crate::text::owned(d.as_str()));
            }
        } else {
            assert(entry_dates(es.take(i + 1)) == prev);
        }
        i = i + 1;
    }
    assert(es.take(entries@.len() as int) =~= es);
    (first, last)
}

/// How many entries have a date that starts with `prefix`.
fn dated_with_prefix(entries: &[Entry], prefix: &str) -> (r: usize)
    ensures
        r == count_prefixed(entry_dates(entries_view(entries@)), prefix@),
{
    let ghost es = entries_view(entries@);
    let pc = chars_of(prefix);
    let mut count: usize = 0;
    let mut i: usize = 0;
    while i < entries.len()
        invariant
            i <= entries@.len(),
            es == entries_view(entries@),
            pc@ == prefix@,
            count == count_prefixed(entry_dates(es.take(i as int)), prefix@),
            count <= i,
        decreases entries@.len() - i,
    {
        let ghost prev = entry_dates(es.take(i as int));
        assert(es.take(i + 1).drop_last() =~= es.take(i as int));
        assert(es.take(i + 1).last() == entries@[i as int]@);
        if let Some(d) = &entries[i].date {
            assert(prev.push(d@).drop_last() =~= prev);
            let dc = chars_of(d.as_str());
            if has_prefix(dc.as_slice(), pc.as_slice()) {
                count = count + 1;
            }
        }
        i = i + 1;
    }
    assert(es.take(entries@.len() as int) =~= es);
    count
}

/// How many distinct tags the entries carry, compared ignoring case.
fn distinct_tag_count(entries: &[Entry]) -> (r: usize)
    ensures
        r == tag_names(entries_view(entries@)).len(),
{
    let ghost es = entries_view(entries@);
    let mut seen: Vec<Vec<char>> = Vec::new();
    let mut i: usize = 0;
    while i < entries.len()
        invariant
            i <= entries@.len(),
            es == entries_view(entries@),
            views(seen@).no_duplicates(),
            forall|t: Seq<char>|
                views(seen@).contains(t) <==> #[trigger] folded_tags(es.take(i as int)).contains(t),
        decreases entries@.len() - i,
    {
        assert(es.take(i + 1).drop_last() =~= es.take(i as int));
        assert(es.take(i + 1).last() == entries@[i as int]@);
        let ghost base = folded_tags(es.take(i as int));
        let ghost ts = strings_view(entries@[i as int].tags@);
        let tags = &entries[i].tags;
        let mut j: usize = 0;
        while j < tags.len()
            invariant
                j <= tags@.len(),
                ts == strings_view(tags@),
                views(seen@).no_duplicates(),
                forall|t: Seq<char>|
                    views(seen@).contains(t) <==> #[trigger] (base + lowered(ts).take(
                        j as int,
                    )).contains(t),
            decreases tags@.len() - j,
        {
            let low = chars_of(to_lowercase(tags[j].as_str()).as_str());
            assert(ts[j as int] == tags@[j as int]@);
            let ghost before = base + lowered(ts).take(j as int);
            assert(base + lowered(ts).take(j + 1) =~= before.push(low@));
            let mut found = false;
            let mut k: usize = 0;
            while k < seen.len()
                invariant
                    k <= seen@.len(),
                    views(seen@).no_duplicates(),
                    forall|t: Seq<char>|
                        views(seen@).contains(t) <==> #[trigger] before.contains(t),
                    found == exists|m: int| 0 <= m < k && views(seen@)[m] == low@,
                decreases seen@.len() - k,
            {
                assert(views(seen@)[k as int] == seen@[k as int]@);
                if chars_eq(seen[k].as_slice(), low.as_slice()) {
                    found = true;
                }
                k = k + 1;
            }
            if !found {
                let ghost old_seen = views(seen@);
                seen.push(low);
                assert(views(seen@) =~= old_seen.push(low@));
                assert forall|t: Seq<char>|
                    views(seen@).contains(t) <==> #[trigger] before.push(low@).contains(t) by {
                    if views(seen@).contains(t) {
                        let m = choose|m: int| 0 <= m < views(seen@).len() && views(seen@)[m] == t;
                        if m < old_seen.len() {
                            assert(old_seen.contains(t));
                            assert(before.contains(t));
                            let p = choose|p: int| 0 <= p < before.len() && before[p] == t;
                            assert(before.push(low@)[p] == t);
                        } else {
                            assert(before.push(low@)[before.len() as int] == t);
                        }
                    }
                    if before.push(low@).contains(t) {
                        let p = choose|p: int|
                            0 <= p < before.push(low@).len() && before.push(low@)[p] == t;
                        if p < before.len() {
                            assert(before[p] == t);
                            assert(before.contains(t));
                            let m = choose|m: int| 0 <= m < old_seen.len() && old_seen[m] == t;
                            assert(views(seen@)[m] == t);
                        } else {
                            assert(views(seen@)[old_seen.len() as int] == t);
                        }
                    }
                }
            } else {
                assert forall|t: Seq<char>|
                    views(seen@).contains(t) <==> #[trigger] before.push(low@).contains(t) by {
                    if views(seen@).contains(t) {
                        assert(before.contains(t));
                        let p = choose|p: int| 0 <= p < before.len() && before[p] == t;
                        assert(before.push(low@)[p] == t);
                    }
                    if before.push(low@).contains(t) {
                        let p = choose|p: int|
                            0 <= p < before.push(low@).len() && before.push(low@)[p] == t;
                        if p < before.len() {
                            assert(before[p] == t);
                            assert(before.contains(t));
                        } else {
                            let m = choose|m: int| 0 <= m < views(seen@).len() && views(seen@)[m] == low@;
                            assert(views(seen@)[m] == t);
                        }
                    }
                }
            }
            j = j + 1;
        }
        assert(lowered(ts).take(tags@.len() as int) =~= lowered(ts));
        assert(ts == es.take(i + 1).last().tags);
        i = i + 1;
    }
    assert(es.take(entries@.len() as int) =~= es);
    assert(views(seen@).to_set() =~= tag_names(es));
    proof {
        views(seen@).unique_seq_to_set();
    }
    seen.len()
}

/// Whether `s` holds the figures of log `es`, counting as "this month" the
/// dates that start with `month`.
pub open spec fn stats_of(es: Seq<EntryView>, month: Seq<char>, s: Stats) -> bool {
    let ds = entry_dates(es);
    &&& s.total == es.len()
    &&& s.active == active_count(es, es.len() as int)
    &&& s.active <= s.total
    &&& ds.len() == 0 ==> s.first is None && s.last is None
    &&& ds.len() > 0 ==> (s.first matches Some(f) && is_earliest(ds, f@)) && (s.last matches Some(
        l,
    ) && is_latest(ds, l@))
    &&& s.this_month == count_prefixed(ds, month)
    &&& s.unique_tags == tag_names(es).len()
}

/// The figures of `stats` for a log, counting as "this month" the dates
/// that start with `month`.
pub fn compute_stats(entries: &[Entry], month: &str) -> (s: Stats)
    ensures
        stats_of(entries_view(entries@), month@, s),
{
    let (first, last) = date_range(entries);
    Stats {
        total: entries.len(),
        active: count_active(entries),
        first,
        last,
        this_month: dated_with_prefix(entries, month),
        unique_tags: distinct_tag_count(entries),
    }
}

} // verus!

verus! {

/// A date, or `?` when there is none.
pub open spec fn or_unknown(o: Option<String>) -> Seq<char> {
    match o {
        Some(s) => s@,
        None => "?"@,
    }
}

/// One line of the `stats` report: a label, a value and a line break.
pub open spec fn stat_line(label: Seq<char>, value: Seq<char>) -> Seq<char> {
    label + value + "\n"@
}

/// The text `stats` prints for these figures.
pub open spec fn stats_text(s: Stats) -> Seq<char> {
    stat_line("total entries: "@, decimal(s.total as nat)) + stat_line(
        "active:        "@,
        decimal(s.active as nat),
    ) + stat_line("superseded:    "@, decimal((s.total - s.active) as nat)) + stat_line(
        "date range:    "@,
        or_unknown(s.first) + " → "@ + or_unknown(s.last),
    ) + stat_line("this month:    "@, decimal(s.this_month as nat)) + stat_line(
        "unique tags:   "@,
        decimal(s.unique_tags as nat),
    )
}

/// Append one `label value` line.
fn push_stat_line(out: &mut String, label: &str, value: &str)
    ensures
        final(out)@ == old(out)@ + stat_line(label@, value@),
{
    out.push_str(label);
    out.push_str(value);
    out.push_str("\n");
    proof {
        assert(final(out)@ =~= old(out)@ + stat_line(label@, value@));
    }
}

/// The decimal digits of `n` as a string.
fn decimal_string(n: usize) -> (r: String)
    ensures
        r@ == decimal(n as nat),
{
    let mut r = String::new();
    push_decimal(&mut r, n);
    r
}

impl Stats {
    /// The report `stats` prints.
    pub fn render(&self) -> (r: String)
        requires
            self.active <= self.total,
        ensures
            r@ == stats_text(*self),
    {
        let mut out = String::new();
        push_stat_line(&mut out, "total entries: ", decimal_string(self.total).as_str());
        push_stat_line(&mut out, "active:        ", decimal_string(self.active).as_str());
        push_stat_line(
            &mut out,
            "superseded:    ",
            decimal_string(self.total - self.active).as_str(),
        );
        let mut range = String::new();
        match &self.first {
            Some(f) => range.push_str(f.as_str()),
            None => range.push_str("?"),
        }
        range.push_str(" → ");
        match &self.last {
            Some(l) => range.push_str(l.as_str()),
            None => range.push_str("?"),
        }
        assert(range@ =~= or_unknown(self.first) + " → "@ + or_unknown(self.last));
        push_stat_line(&mut out, "date range:    ", range.as_str());
        push_stat_line(&mut out, "this month:    ", decimal_string(self.this_month).as_str());
        push_stat_line(&mut out, "unique tags:   ", decimal_string(self.unique_tags).as_str());
        out
    }
}

/// The message for an empty log.
pub open spec fn no_entries_message() -> Seq<char> {
    "(no entries yet)\n"@
}

/// The `stats` report of a log, counting as "this month" the dates that
/// start with `month`; a short notice for an empty log.
pub fn stats_report(entries: &[Entry], month: &str) -> (r: String)
    ensures
        entries@.len() == 0 ==> r@ == no_entries_message(),
        entries@.len() > 0 ==> exists|s: Stats|
            #[trigger] stats_of(entries_view(entries@), month@, s) && r@ == stats_text(s),
{
    if entries.len() == 0 {
        return crate::text::owned("(no entries yet)\n");
    }
    let s = compute_stats(entries, month);
    let r = s.render();
    assert(r@ == stats_text(s));
    r
}

} // verus!

verus! {

/// How many times `x` occurs in `s`.
pub open spec fn occurrences(s: Seq<Seq<char>>, x: Seq<char>) -> nat
    decreases s.len(),
{
    if s.len() == 0 {
        0
    } else {
        occurrences(s.drop_last(), x) + if s.last() == x {
            1nat
        } else {
            0nat
        }
    }
}

/// The order of the `tags` listing: higher count first, then name.
pub open spec fn row_before(a: (Seq<char>, nat), b: (Seq<char>, nat)) -> bool {
    a.1 > b.1 || (a.1 == b.1 && lex_lt(a.0, b.0))
}

/// A tag count as characters and a number.
pub open spec fn rows_view(v: Seq<(String, usize)>) -> Seq<(Seq<char>, nat)> {
    Seq::new(v.len(), |i: int| (v[i].0@, v[i].1 as nat))
}

/// `rows` lists each distinct tag of `es` once, ignoring case, with the
/// number of times it is used, in the order of [`row_before`].
pub open spec fn tag_rows_of(es: Seq<EntryView>, rows: Seq<(Seq<char>, nat)>) -> bool {
    &&& forall|i: int, j: int| 0 <= i < j < rows.len() ==> row_before(#[trigger] rows[i], #[trigger] rows[j])
    &&& forall|i: int|
        0 <= i < rows.len() ==> (#[trigger] rows[i]).1 == occurrences(folded_tags(es), rows[i].0)
    &&& forall|t: Seq<char>|
        #[trigger] tag_names(es).contains(t) <==> exists|i: int| 0 <= i < rows.len() && rows[i].0 == t
}

proof fn lemma_occurrences_push(s: Seq<Seq<char>>, y: Seq<char>, x: Seq<char>)
    ensures
        occurrences(s.push(y), x) == occurrences(s, x) + if y == x {
            1nat
        } else {
            0nat
        },
{
    assert(s.push(y).drop_last() =~= s);
}

proof fn lemma_occurrences_absent(s: Seq<Seq<char>>, x: Seq<char>)
    requires
        !s.contains(x),
    ensures
        occurrences(s, x) == 0,
    decreases s.len(),
{
    if s.len() > 0 {
        assert(s.last() == s[s.len() - 1]);
        assert forall|k: int| 0 <= k < s.drop_last().len() implies s.drop_last()[k] != x by {
            assert(s.drop_last()[k] == s[k]);
        }
        lemma_occurrences_absent(s.drop_last(), x);
    }
}

proof fn lemma_occurrences_bound(s: Seq<Seq<char>>, x: Seq<char>)
    ensures
        occurrences(s, x) <= s.len(),
    decreases s.len(),
{
    if s.len() > 0 {
        lemma_occurrences_bound(s.drop_last(), x);
    }
}

/// The folded tags of a prefix of the log are no more than those of the log.
proof fn lemma_folded_prefix_len(es: Seq<EntryView>, i: int)
    requires
        0 <= i <= es.len(),
    ensures
        folded_tags(es.take(i)).len() <= folded_tags(es).len(),
    decreases es.len() - i,
{
    if i < es.len() {
        lemma_folded_prefix_len(es, i + 1);
        assert(es.take(i + 1).drop_last() =~= es.take(i));
    } else {
        assert(es.take(i) =~= es);
    }
}

proof fn lemma_row_before_transitive(a: (Seq<char>, nat), b: (Seq<char>, nat), c: (Seq<char>, nat))
    requires
        row_before(a, b),
        row_before(b, c),
    ensures
        row_before(a, c),
{
    if a.1 == b.1 && b.1 == c.1 {
        lemma_lex_lt_transitive(a.0, b.0, c.0);
    }
}

proof fn lemma_row_before_total(a: (Seq<char>, nat), b: (Seq<char>, nat))
    requires
        a.0 != b.0,
    ensures
        row_before(a, b) || row_before(b, a),
        !(row_before(a, b) && row_before(b, a)),
{
    lemma_lex_lt_total(a.0, b.0);
}

/// Each distinct tag, ignoring case, with its number of uses, in order of
/// first use.
fn tally_tags(entries: &[Entry]) -> (r: Vec<(String, usize)>)
    requires
        tag_total(entries_view(entries@)) <= usize::MAX,
    ensures
        ({
            let es = entries_view(entries@);
            let rv = rows_view(r@);
            &&& forall|i: int, j: int| 0 <= i < j < rv.len() ==> (#[trigger] rv[i]).0 != (
            #[trigger] rv[j]).0
            &&& forall|i: int|
                0 <= i < rv.len() ==> (#[trigger] rv[i]).1 == occurrences(folded_tags(es), rv[i].0)
            &&& forall|t: Seq<char>|
                #[trigger] tag_names(es).contains(t) <==> exists|i: int|
                    0 <= i < rv.len() && rv[i].0 == t
        }),
{
    let ghost es = entries_view(entries@);
    proof {
        lemma_folded_len(es);
    }
    let mut rows: Vec<(String, usize)> = Vec::new();
    let mut i: usize = 0;
    while i < entries.len()
        invariant
            i <= entries@.len(),
            es == entries_view(entries@),
            folded_tags(es).len() <= usize::MAX,
            ({
                let rv = rows_view(rows@);
                let seen = folded_tags(es.take(i as int));
                &&& forall|a: int, b: int|
                    0 <= a < b < rv.len() ==> (#[trigger] rv[a]).0 != (#[trigger] rv[b]).0
                &&& forall|a: int| 0 <= a < rv.len() ==> (#[trigger] rv[a]).1 == occurrences(seen, rv[a].0)
                &&& forall|t: Seq<char>|
                    #[trigger] seen.contains(t) <==> exists|a: int| 0 <= a < rv.len() && rv[a].0 == t
            }),
        decreases entries@.len() - i,
    {
        assert(es.take(i + 1).drop_last() =~= es.take(i as int));
        assert(es.take(i + 1).last() == entries@[i as int]@);
        proof {
            lemma_folded_prefix_len(es, i + 1);
        }
        let ghost base = folded_tags(es.take(i as int));
        let ghost ts = strings_view(entries@[i as int].tags@);
        assert(folded_tags(es.take(i + 1)) == base + lowered(ts));
        let tags = &entries[i].tags;
        let mut j: usize = 0;
        while j < tags.len()
            invariant
                j <= tags@.len(),
                ts == strings_view(tags@),
                (base + lowered(ts)).len() <= usize::MAX,
                ({
                    let rv = rows_view(rows@);
                    let seen = base + lowered(ts).take(j as int);
                    &&& forall|a: int, b: int|
                        0 <= a < b < rv.len() ==> (#[trigger] rv[a]).0 != (#[trigger] rv[b]).0
                    &&& forall|a: int|
                        0 <= a < rv.len() ==> (#[trigger] rv[a]).1 == occurrences(seen, rv[a].0)
                    &&& forall|t: Seq<char>|
                        #[trigger] seen.contains(t) <==> exists|a: int|
                            0 <= a < rv.len() && rv[a].0 == t
                }),
            decreases tags@.len() - j,
        {
            let low = to_lowercase(tags[j].as_str());
            let lc = chars_of(low.as_str());
            assert(ts[j as int] == tags@[j as int]@);
            let ghost before = base + lowered(ts).take(j as int);
            let ghost after = before.push(low@);
            assert(base + lowered(ts).take(j + 1) =~= after);
            assert(after.len() <= (base + lowered(ts)).len());
            let ghost old_rv = rows_view(rows@);
            let mut pos: usize = rows.len();
            let mut k: usize = 0;
            while k < rows.len()
                invariant
                    k <= rows@.len(),
                    old_rv == rows_view(rows@),
                    lc@ == low@,
                    pos == rows@.len() || (pos < k && old_rv[pos as int].0 == low@),
                    pos == rows@.len() ==> forall|m: int| 0 <= m < k ==> (#[trigger] old_rv[m]).0 != low@,
                decreases rows@.len() - k,
            {
                let rc = chars_of(rows[k].0.as_str());
                assert(old_rv[k as int].0 == rows@[k as int].0@);
                if pos == rows.len() && chars_eq(rc.as_slice(), lc.as_slice()) {
                    pos = k;
                }
                k = k + 1;
            }
            proof {
                lemma_occurrences_bound(after, low@);
                assert forall|t: Seq<char>| t != low@ implies occurrences(after, t) == occurrences(before, t) by {
                    lemma_occurrences_push(before, low@, t);
                }
                lemma_occurrences_push(before, low@, low@);
                assert forall|t: Seq<char>| #[trigger] after.contains(t) <==> (before.contains(t) || t == low@) by {
                    if after.contains(t) {
                        let p = choose|p: int| 0 <= p < after.len() && after[p] == t;
                        if p < before.len() {
                            assert(before[p] == t);
                        }
                    }
                    if before.contains(t) {
                        let p = choose|p: int| 0 <= p < before.len() && before[p] == t;
                        assert(after[p] == t);
                    }
                    if t == low@ {
                        assert(after[before.len() as int] == t);
                    }
                }
            }
            if pos < rows.len() {
                assert(old_rv[pos as int].1 == occurrences(before, low@));
                let c = rows[pos].1 + 1;
                rows.set(pos, (low, c));
                proof {
                    let rv = rows_view(rows@);
                    assert(rv =~= old_rv.update(pos as int, (low@, c as nat)));
                    assert forall|t: Seq<char>|
                        #[trigger] after.contains(t) <==> exists|a: int| 0 <= a < rv.len() && rv[a].0 == t by {
                        if after.contains(t) {
                            if t == low@ {
                                assert(rv[pos as int].0 == t);
                            } else {
                                assert(before.contains(t));
                                let a = choose|a: int| 0 <= a < old_rv.len() && old_rv[a].0 == t;
                                assert(rv[a].0 == t);
                            }
                        }
                        if exists|a: int| 0 <= a < rv.len() && rv[a].0 == t {
                            let a = choose|a: int| 0 <= a < rv.len() && rv[a].0 == t;
                            if a != pos {
                                assert(old_rv[a].0 == t);
                                assert(before.contains(t));
                            }
                        }
                    }
                    assert forall|a: int| 0 <= a < rv.len() implies (#[trigger] rv[a]).1 == occurrences(after, rv[a].0) by {
                        if a != pos {
                            assert(old_rv[a].0 != old_rv[pos as int].0 || a == pos);
                            if a < pos {
                                assert(old_rv[a].0 != old_rv[pos as int].0);
                            } else {
                                assert(old_rv[pos as int].0 != old_rv[a].0);
                            }
                        }
                    }
                    assert forall|a: int, b: int|
                        0 <= a < b < rv.len() implies (#[trigger] rv[a]).0 != (#[trigger] rv[b]).0 by {
                        assert(old_rv[a].0 != old_rv[b].0);
                    }
                }
            } else {
                proof {
                    if before.contains(low@) {
                        let a = choose|a: int| 0 <= a < old_rv.len() && old_rv[a].0 == low@;
                        assert(old_rv[a].0 != low@);
                    }
                    lemma_occurrences_absent(before, low@);
                }
                rows.push((low, 1));
                proof {
                    let rv = rows_view(rows@);
                    assert(rv =~= old_rv.push((low@, 1nat)));
                    assert forall|t: Seq<char>|
                        #[trigger] after.contains(t) <==> exists|a: int| 0 <= a < rv.len() && rv[a].0 == t by {
                        if after.contains(t) {
                            if t == low@ {
                                assert(rv[old_rv.len() as int].0 == t);
                            } else {
                                assert(before.contains(t));
                                let a = choose|a: int| 0 <= a < old_rv.len() && old_rv[a].0 == t;
                                assert(rv[a].0 == t);
                            }
                        }
                        if exists|a: int| 0 <= a < rv.len() && rv[a].0 == t {
                            let a = choose|a: int| 0 <= a < rv.len() && rv[a].0 == t;
                            if a < old_rv.len() {
                                assert(old_rv[a].0 == t);
                                assert(before.contains(t));
                            }
                        }
                    }
                    assert forall|a: int| 0 <= a < rv.len() implies (#[trigger] rv[a]).1 == occurrences(after, rv[a].0) by {
                        if a < old_rv.len() {
                            assert(old_rv[a].0 != low@);
                        }
                    }
                    assert forall|a: int, b: int|
                        0 <= a < b < rv.len() implies (#[trigger] rv[a]).0 != (#[trigger] rv[b]).0 by {
                        if b < old_rv.len() {
                            assert(old_rv[a].0 != old_rv[b].0);
                        } else {
                            assert(old_rv[a].0 != low@);
                        }
                    }
                }
            }
            j = j + 1;
        }
        assert(lowered(ts).take(tags@.len() as int) =~= lowered(ts));
        i = i + 1;
    }
    assert(es.take(entries@.len() as int) =~= es);
    rows
}

} // verus!

verus! {

/// Order the tag counts by [`row_before`].
fn sort_rows(rows: Vec<(String, usize)>) -> (r: Vec<(String, usize)>)
    requires
        forall|i: int, j: int|
            0 <= i < j < rows@.len() ==> (#[trigger] rows_view(rows@)[i]).0 != (
            #[trigger] rows_view(rows@)[j]).0,
    ensures
        forall|i: int, j: int|
            0 <= i < j < r@.len() ==> row_before(
                #[trigger] rows_view(r@)[i],
                #[trigger] rows_view(r@)[j],
            ),
        forall|p: (Seq<char>, nat)| #[trigger] rows_view(r@).contains(p) <==> rows_view(rows@).contains(p),
{
    let ghost tv = rows_view(rows@);
    let mut rest = rows;
    let mut out: Vec<(String, usize)> = Vec::new();
    while rest.len() > 0
        invariant
            rest@.len() <= tv.len(),
            rows_view(rest@) == tv.take(rest@.len() as int),
            forall|i: int, j: int| 0 <= i < j < tv.len() ==> (#[trigger] tv[i]).0 != (#[trigger] tv[j]).0,
            forall|i: int, j: int|
                0 <= i < j < out@.len() ==> row_before(
                    #[trigger] rows_view(out@)[i],
                    #[trigger] rows_view(out@)[j],
                ),
            forall|p: (Seq<char>, nat)|
                #[trigger] rows_view(out@).contains(p) <==> exists|k: int|
                    rest@.len() <= k < tv.len() && tv[k] == p,
        decreases rest@.len(),
    {
        let ghost n = rest@.len() as int;
        let ghost before_pop = rest@;
        let x = match rest.pop() {
            Some(x) => x,
            None => {
                return out;
            },
        };
        let ghost xv = (x.0@, x.1 as nat);
        assert(xv == tv[n - 1]) by {
            assert(rows_view(before_pop)[n - 1] == xv);
            assert(tv.take(n)[n - 1] == tv[n - 1]);
        }
        assert(rows_view(rest@) =~= tv.take(n - 1));
        let ghost ov = rows_view(out@);
        assert forall|a: int| 0 <= a < ov.len() implies (#[trigger] ov[a]).0 != xv.0 by {
            assert(ov.contains(ov[a]));
            let k = choose|k: int| n <= k < tv.len() && tv[k] == ov[a];
            assert(tv[n - 1].0 != tv[k].0);
        }
        let xc = chars_of(x.0.as_str());
        let mut pos: usize = 0;
        while pos < out.len() && !row_before_exec(&x, &out[pos], xc.as_slice())
            invariant
                pos <= out@.len(),
                ov == rows_view(out@),
                xc@ == x.0@,
                xv == (x.0@, x.1 as nat),
                forall|a: int| 0 <= a < pos ==> row_before(#[trigger] ov[a], xv),
                forall|a: int| 0 <= a < ov.len() ==> (#[trigger] ov[a]).0 != xv.0,
            decreases out@.len() - pos,
        {
            proof {
                lemma_row_before_total(ov[pos as int], xv);
            }
            pos = pos + 1;
        }
        proof {
            assert forall|a: int| pos <= a < ov.len() implies row_before(xv, #[trigger] ov[a]) by {
                if a > pos {
                    lemma_row_before_transitive(xv, ov[pos as int], ov[a]);
                }
            }
        }
        out.insert(pos, x);
        proof {
            let nv = rows_view(out@);
            assert(nv =~= ov.insert(pos as int, xv));
            assert forall|i: int, j: int| 0 <= i < j < nv.len() implies row_before(
                #[trigger] nv[i],
                #[trigger] nv[j],
            ) by {
                if j < pos {
                    assert(row_before(ov[i], ov[j]));
                } else if j == pos {
                    assert(row_before(ov[i], xv));
                } else if i < pos {
                    assert(row_before(ov[i], ov[j - 1]));
                } else if i == pos {
                    assert(row_before(xv, ov[j - 1]));
                } else {
                    assert(row_before(ov[i - 1], ov[j - 1]));
                }
            }
            assert forall|p: (Seq<char>, nat)| #[trigger] nv.contains(p) <==> exists|k: int|
                n - 1 <= k < tv.len() && tv[k] == p by {
                if nv.contains(p) {
                    let i = choose|i: int| 0 <= i < nv.len() && nv[i] == p;
                    if i < pos {
                        assert(ov[i] == p);
                        assert(ov.contains(p));
                    } else if i > pos {
                        assert(ov[i - 1] == p);
                        assert(ov.contains(p));
                    } else {
                        assert(tv[n - 1] == p);
                    }
                }
                if exists|k: int| n - 1 <= k < tv.len() && tv[k] == p {
                    let k = choose|k: int| n - 1 <= k < tv.len() && tv[k] == p;
                    if k == n - 1 {
                        assert(nv[pos as int] == p);
                    } else {
                        assert(ov.contains(p));
                        let i = choose|i: int| 0 <= i < ov.len() && ov[i] == p;
                        if i < pos {
                            assert(nv[i] == p);
                        } else {
                            assert(nv[i + 1] == p);
                        }
                    }
                }
            }
        }
    }
    assert forall|p: (Seq<char>, nat)| #[trigger] rows_view(out@).contains(p) <==> tv.contains(p) by {
        if tv.contains(p) {
            let k = choose|k: int| 0 <= k < tv.len() && tv[k] == p;
        }
    }
    out
}

/// Whether row `a` comes before row `b` in the `tags` listing; `ac` holds
/// the characters of `a`'s name.
fn row_before_exec(a: &(String, usize), b: &(String, usize), ac: &[char]) -> (r: bool)
    requires
        ac@ == a.0@,
    ensures
        r == row_before((a.0@, a.1 as nat), (b.0@, b.1 as nat)),
{
    if a.1 != b.1 {
        return a.1 > b.1;
    }
    let bc = chars_of(b.0.as_str());
    chars_lt(ac, bc.as_slice())
}

/// Each distinct tag of the log, ignoring case, with its number of uses,
/// most used first and then by name.
pub fn tag_counts(entries: &[Entry]) -> (r: Vec<(String, usize)>)
    requires
        tag_total(entries_view(entries@)) <= usize::MAX,
    ensures
        tag_rows_of(entries_view(entries@), rows_view(r@)),
{
    let ghost es = entries_view(entries@);
    let tally = tally_tags(entries);
    let ghost tv = rows_view(tally@);
    let r = sort_rows(tally);
    proof {
        let rv = rows_view(r@);
        assert forall|i: int| 0 <= i < rv.len() implies (#[trigger] rv[i]).1 == occurrences(
            folded_tags(es),
            rv[i].0,
        ) by {
            assert(rv.contains(rv[i]));
            let k = choose|k: int| 0 <= k < tv.len() && tv[k] == rv[i];
        }
        assert forall|t: Seq<char>| #[trigger] tag_names(es).contains(t) <==> exists|i: int|
            0 <= i < rv.len() && rv[i].0 == t by {
            if tag_names(es).contains(t) {
                assert(exists|k: int| 0 <= k < tv.len() && tv[k].0 == t);
                let k = choose|k: int| 0 <= k < tv.len() && tv[k].0 == t;
                assert(tv.contains(tv[k]));
                assert(rv.contains(tv[k]));
                let i = choose|i: int| 0 <= i < rv.len() && rv[i] == tv[k];
                assert(rv[i].0 == t);
            }
            if exists|i: int| 0 <= i < rv.len() && rv[i].0 == t {
                let i = choose|i: int| 0 <= i < rv.len() && rv[i].0 == t;
                assert(rv.contains(rv[i]));
                let k = choose|k: int| 0 <= k < tv.len() && tv[k] == rv[i];
                assert(tv[k].0 == t);
                assert(tag_names(es).contains(t));
            }
        }
    }
    r
}

} // verus!

verus! {

/// The length in bytes that `str::len` reports for text `s`.
pub open spec fn byte_len(s: Seq<char>) -> usize {
    vstd::utf8::encode_utf8(s).len() as usize
}

/// The widest tag name of the listing, in bytes.
pub open spec fn widest(rows: Seq<(Seq<char>, nat)>) -> usize
    decreases rows.len(),
{
    if rows.len() == 0 {
        0
    } else {
        let w = widest(rows.drop_last());
        let b = byte_len(rows.last().0);
        if b > w {
            b
        } else {
            w
        }
    }
}

/// `n` spaces.
pub open spec fn spaces(n: int) -> Seq<char> {
    Seq::new(n as nat, |i: int| ' ')
}

/// `name` left-aligned in `width` characters, as `{:<width}` formats it.
pub open spec fn padded(name: Seq<char>, width: int) -> Seq<char> {
    if name.len() < width {
        name + spaces(width - name.len())
    } else {
        name
    }
}

/// One line of the `tags` listing.
pub open spec fn tag_line(row: (Seq<char>, nat), width: int) -> Seq<char> {
    padded(row.0, width) + "  "@ + decimal(row.1)
}

/// The line `tags` prints for a log without tags.
pub open spec fn no_tags_message() -> Seq<char> {
    "(no tags yet — add entries with --tag <name>)"@
}

/// The widest name among the rows.
fn widest_name(rows: &Vec<(String, usize)>) -> (w: usize)
    ensures
        w == widest(rows_view(rows@)),
{
    let ghost rv = rows_view(rows@);
    let mut w: usize = 0;
    let mut i: usize = 0;
    while i < rows.len()
        invariant
            i <= rows@.len(),
            rv == rows_view(rows@),
            w == widest(rv.take(i as int)),
        decreases rows@.len() - i,
    {
        assert(rv.take(i + 1).drop_last() =~= rv.take(i as int));
        assert(rv.take(i + 1).last() == rv[i as int]);
        let b = rows[i].0.as_str().len();
        if b > w {
            w = b;
        }
        i = i + 1;
    }
    assert(rv.take(rows@.len() as int) =~= rv);
    w
}

/// The lines of the `tags` listing for these rows.
pub fn tag_lines(rows: &Vec<(String, usize)>) -> (r: Vec<String>)
    ensures
        r@.len() == rows@.len(),
        forall|i: int|
            0 <= i < r@.len() ==> (#[trigger] r@[i])@ == tag_line(
                rows_view(rows@)[i],
                widest(rows_view(rows@)) as int,
            ),
{
    let ghost rv = rows_view(rows@);
    let width = widest_name(rows);
    let mut out: Vec<String> = Vec::new();
    let mut i: usize = 0;
    while i < rows.len()
        invariant
            i <= rows@.len(),
            rv == rows_view(rows@),
            width == widest(rv),
            out@.len() == i,
            forall|k: int| 0 <= k < i ==> (#[trigger] out@[k])@ == tag_line(rv[k], width as int),
        decreases rows@.len() - i,
    {
        let name = &rows[i].0;
        let n = chars_of(name.as_str()).len();
        let mut line = crate::text::owned(name.as_str());
        if n < width {
            let mut k: usize = n;
            while k < width
                invariant
                    n <= k <= width,
                    line@ == name@ + spaces(k - n),
                decreases width - k,
            {
                line.push(' ');
                k = k + 1;
                assert(line@ =~= name@ + spaces(k - n));
            }
        } else {
            assert(line@ =~= padded(name@, width as int));
        }
        line.push_str("  ");
        push_decimal(&mut line, rows[i].1);
        assert(line@ =~= tag_line(rv[i as int], width as int));
        out.push(line);
        i = i + 1;
    }
    out
}

/// The lines `tags` prints for a log: each distinct tag with its number of
/// uses, most used first, or a notice when there is no tag.
pub fn tags_report(entries: &[Entry]) -> (r: Vec<String>)
    requires
        tag_total(entries_view(entries@)) <= usize::MAX,
    ensures
        tag_names(entries_view(entries@)).len() == 0 ==> r@.len() == 1 && r@[0]@
            == no_tags_message(),
        tag_names(entries_view(entries@)).len() > 0 ==> exists|rows: Seq<(Seq<char>, nat)>|
            #[trigger] tag_rows_of(entries_view(entries@), rows) && r@.len() == rows.len() && rows.len() > 0
                && forall|i: int|
                0 <= i < rows.len() ==> (#[trigger] r@[i])@ == tag_line(rows[i], widest(rows) as int),
{
    let rows = tag_counts(entries);
    let ghost es = entries_view(entries@);
    let ghost rv = rows_view(rows@);
    proof {
        lemma_tag_rows_count(es, rv);
    }
    if rows.len() == 0 {
        let mut v: Vec<String> = Vec::new();
        v.push(crate::text::owned("(no tags yet — add entries with --tag <name>)"));
        return v;
    }
    tag_lines(&rows)
}

/// The rows of a tag listing are as many as the distinct tags.
proof fn lemma_tag_rows_count(es: Seq<EntryView>, rows: Seq<(Seq<char>, nat)>)
    requires
        tag_rows_of(es, rows),
    ensures
        rows.len() == tag_names(es).len(),
{
    let names = Seq::new(rows.len(), |i: int| rows[i].0);
    assert forall|i: int, j: int| 0 <= i < names.len() && 0 <= j < names.len() && i != j implies names[i] != names[j] by {
        if i < j {
            assert(row_before(rows[i], rows[j]));
            if names[i] == names[j] {
                lemma_lex_lt_irreflexive(names[i]);
            }
        } else {
            assert(row_before(rows[j], rows[i]));
            if names[i] == names[j] {
                lemma_lex_lt_irreflexive(names[i]);
            }
        }
    }
    assert forall|t: Seq<char>| names.to_set().contains(t) <==> tag_names(es).contains(t) by {
        if tag_names(es).contains(t) {
            let i = choose|i: int| 0 <= i < rows.len() && rows[i].0 == t;
            assert(names[i] == t);
        }
        if names.to_set().contains(t) {
            let i = choose|i: int| 0 <= i < names.len() && names[i] == t;
            assert(rows[i].0 == t);
        }
    }
    assert(names.to_set() =~= tag_names(es));
    names.unique_seq_to_set();
}

} // verus!

verus! {

/// The line `check` prints for a sound log.
pub open spec fn check_ok_line(es: Seq<EntryView>) -> Seq<char> {
    let a = active_count(es, es.len() as int);
    "ok: "@ + decimal(es.len()) + " entries ("@ + decimal(a) + " active, "@ + decimal(
        (es.len() - a) as nat,
    ) + " superseded)"@
}

/// The line `check` prints when it finds no issue: how many entries, how
/// many of them active and how many superseded.
pub fn check_summary(entries: &[Entry]) -> (r: String)
    ensures
        r@ == check_ok_line(entries_view(entries@)),
{
    let total = entries.len();
    let active = count_active(entries);
    let mut out = crate::text::owned("ok: ");
    push_decimal(&mut out, total);
    out.push_str(" entries (");
    push_decimal(&mut out, active);
    out.push_str(" active, ");
    push_decimal(&mut out, total - active);
    out.push_str(" superseded)");
    assert(out@ =~= check_ok_line(entries_view(entries@)));
    out
}

} // verus!

verus! {

/// How many entries carry a date that starts with `p`.
pub open spec fn entries_dated_with(es: Seq<EntryView>, p: Seq<char>) -> nat
    decreases es.len(),
{
    if es.len() == 0 {
        0
    } else {
        entries_dated_with(es.drop_last(), p) + if es.last().date matches Some(d) && starts_with(
            d,
            p,
        ) {
            1nat
        } else {
            0nat
        }
    }
}

proof fn lemma_entry_dates_exact(es: Seq<EntryView>, p: Seq<char>)
    ensures
        forall|i: int|
            0 <= i < es.len() && (#[trigger] es[i]).date is Some ==> entry_dates(es).contains(
                es[i].date->0,
            ),
        forall|k: int|
            #![trigger entry_dates(es)[k]]
            0 <= k < entry_dates(es).len() ==> exists|i: int|
                0 <= i < es.len() && (#[trigger] es[i]).date == Some(entry_dates(es)[k]),
        count_prefixed(entry_dates(es), p) == entries_dated_with(es, p),
    decreases es.len(),
{
    if es.len() > 0 {
        let q = es.drop_last();
        lemma_entry_dates_exact(q, p);
        let pd = entry_dates(q);
        let ds = entry_dates(es);
        assert forall|i: int| 0 <= i < es.len() && (#[trigger] es[i]).date is Some implies ds.contains(
            es[i].date->0,
        ) by {
            if i < es.len() - 1 {
                assert(q[i] == es[i]);
                assert(pd.contains(es[i].date->0));
                let j = choose|j: int| 0 <= j < pd.len() && pd[j] == es[i].date->0;
                assert(ds[j] == pd[j]);
            } else {
                assert(ds == pd.push(es[i].date->0));
                assert(ds[pd.len() as int] == es[i].date->0);
            }
        }
        assert forall|k: int| #![trigger ds[k]] 0 <= k < ds.len() implies exists|i: int|
            0 <= i < es.len() && (#[trigger] es[i]).date == Some(ds[k]) by {
            if k < pd.len() {
                assert(ds[k] == pd[k]);
                let i = choose|i: int| 0 <= i < q.len() && (#[trigger] q[i]).date == Some(pd[k]);
                assert(es[i] == q[i]);
            } else {
                assert(es[es.len() - 1].date == Some(ds[k]));
            }
        }
        match es.last().date {
            Some(d) => {
                assert(ds == pd.push(d));
                assert(ds.drop_last() =~= pd);
            },
            None => {},
        }
    }
}

/// The figures of `stats` over every dated entry, superseded or not: the
/// first date is one of the entries' dates and none sorts before it, the
/// last is one and none sorts after it, both are absent exactly when no
/// entry is dated, and "this month" counts the entries whose date starts
/// with the month.
pub proof fn lemma_stats_figures(es: Seq<EntryView>, month: Seq<char>, s: Stats)
    requires
        stats_of(es, month, s),
    ensures
        s.total == es.len(),
        (s.first is Some) <==> (exists|i: int| 0 <= i < es.len() && (#[trigger] es[i]).date is Some),
        (s.last is Some) <==> (exists|i: int| 0 <= i < es.len() && (#[trigger] es[i]).date is Some),
        s.first matches Some(f) ==> (exists|i: int|
            0 <= i < es.len() && (#[trigger] es[i]).date == Some(f@)) && forall|i: int|
            0 <= i < es.len() && (#[trigger] es[i]).date is Some ==> crate::text::lex_le(
                f@,
                es[i].date->0,
            ),
        s.last matches Some(l) ==> (exists|i: int|
            0 <= i < es.len() && (#[trigger] es[i]).date == Some(l@)) && forall|i: int|
            0 <= i < es.len() && (#[trigger] es[i]).date is Some ==> crate::text::lex_le(
                es[i].date->0,
                l@,
            ),
        s.this_month == entries_dated_with(es, month),
{
    lemma_entry_dates_exact(es, month);
    let ds = entry_dates(es);
    if exists|i: int| 0 <= i < es.len() && (#[trigger] es[i]).date is Some {
        let i = choose|i: int| 0 <= i < es.len() && (#[trigger] es[i]).date is Some;
        assert(ds.contains(es[i].date->0));
    }
    if ds.len() > 0 {
        let i = choose|i: int| 0 <= i < es.len() && (#[trigger] es[i]).date == Some(ds[0]);
        assert(es[i].date is Some);
    }
    match s.first {
        Some(f) => {
            let k = choose|k: int| 0 <= k < ds.len() && ds[k] == f@;
            let w = choose|i: int| 0 <= i < es.len() && (#[trigger] es[i]).date == Some(ds[k]);
            assert(es[w].date == Some(f@));
            assert forall|i: int| 0 <= i < es.len() && (#[trigger] es[i]).date is Some implies crate::text::lex_le(
                f@,
                es[i].date->0,
            ) by {
                let d = es[i].date->0;
                let j = choose|j: int| 0 <= j < ds.len() && ds[j] == d;
                assert(!lex_lt(ds[j], f@));
                lemma_lex_lt_total(d, f@);
            }
        },
        None => {},
    }
    match s.last {
        Some(l) => {
            let k = choose|k: int| 0 <= k < ds.len() && ds[k] == l@;
            let w = choose|i: int| 0 <= i < es.len() && (#[trigger] es[i]).date == Some(ds[k]);
            assert(es[w].date == Some(l@));
            assert forall|i: int| 0 <= i < es.len() && (#[trigger] es[i]).date is Some implies crate::text::lex_le(
                es[i].date->0,
                l@,
            ) by {
                let d = es[i].date->0;
                let j = choose|j: int| 0 <= j < ds.len() && ds[j] == d;
                assert(!lex_lt(l@, ds[j]));
                lemma_lex_lt_total(d, l@);
            }
        },
        None => {},
    }
}

/// Whether some tag of some entry lower-cases to `x`.
pub open spec fn some_entry_tagged(es: Seq<EntryView>, x: Seq<char>) -> bool {
    exists|i: int, j: int|
        0 <= i < es.len() && 0 <= j < es[i].tags.len() && lowercase(#[trigger] es[i].tags[j]) == x
}

proof fn lemma_folded_tags_exact(es: Seq<EntryView>, x: Seq<char>)
    ensures
        folded_tags(es).contains(x) <==> some_entry_tagged(es, x),
    decreases es.len(),
{
    if es.len() > 0 {
        let q = es.drop_last();
        let n = es.len() - 1;
        lemma_folded_tags_exact(q, x);
        let a = folded_tags(q);
        let b = lowered(es.last().tags);
        assert(folded_tags(es) == a + b);
        if (a + b).contains(x) {
            let k = choose|k: int| 0 <= k < (a + b).len() && (a + b)[k] == x;
            if k < a.len() {
                assert(a[k] == x);
                let (i, j) = choose|i: int, j: int|
                    0 <= i < q.len() && 0 <= j < q[i].tags.len() && lowercase(
                        #[trigger] q[i].tags[j],
                    ) == x;
                assert(es[i] == q[i]);
                assert(lowercase(es[i].tags[j]) == x);
            } else {
                assert(b[k - a.len()] == x);
                assert(lowercase(es[n].tags[k - a.len()]) == x);
            }
        }
        if some_entry_tagged(es, x) {
            let (i, j) = choose|i: int, j: int|
                0 <= i < es.len() && 0 <= j < es[i].tags.len() && lowercase(
                    #[trigger] es[i].tags[j],
                ) == x;
            if i < n {
                assert(q[i] == es[i]);
                assert(lowercase(q[i].tags[j]) == x);
                assert(a.contains(x));
                let k = choose|k: int| 0 <= k < a.len() && a[k] == x;
                assert((a + b)[k] == x);
            } else {
                assert(b[j] == x);
                assert((a + b)[a.len() + j] == x);
            }
        }
    }
}

/// The tags `stats` counts are exactly those some entry carries, compared
/// ignoring case.
pub proof fn lemma_stats_tag_names(es: Seq<EntryView>, x: Seq<char>)
    ensures
        tag_names(es).contains(x) <==> some_entry_tagged(es, x),
{
    lemma_folded_tags_exact(es, x);
}

} // verus!
