//! Reading the log back: the filters of `list`, `search` and `export`, the
//! choice of one decision by date and title, and the supersession chain
//! that `trace` prints.
use vstd::prelude::*;

use crate::calendar_date;
use crate::commands::{
    dated_and_titled, dated_indices, lemma_indices_in_range, titled_indices, validate_date_arg,
};
use crate::error::Error;
use crate::parse::{
    entries_view, ints, matching_prior, opt_view, strings_view, title_separator, unique_target,
    unique_target_exec, Entry, EntryView,
};
use crate::store::opt_str_view;
use crate::text::{
    chars_eq, chars_lt, chars_of, contains, find_exec, lex_le, lex_lt, lowercase, string_of,
    to_lowercase, trim, trim_chars,
};

verus! {

/// The filters that `list`, `search` and `export` accept.
pub struct FilterArgs {
    /// Every one of these tags must be on an entry, compared ignoring case.
    pub tags: Vec<String>,
    /// Only entries dated on or after this day.
    pub since: Option<String>,
    /// Only entries dated on or before this day.
    pub until: Option<String>,
    /// Only decisions that nothing supersedes.
    pub active: bool,
    /// Only decisions that a later entry supersedes.
    pub superseded: bool,
    /// At most this many entries.
    pub limit: Option<usize>,
}

/// The mathematical content of a [`FilterArgs`].
pub ghost struct FilterView {
    pub tags: Seq<Seq<char>>,
    pub since: Option<Seq<char>>,
    pub until: Option<Seq<char>>,
    pub active: bool,
    pub superseded: bool,
    pub limit: Option<nat>,
}

impl View for FilterArgs {
    type V = FilterView;

    open spec fn view(&self) -> FilterView {
        FilterView {
            tags: strings_view(self.tags@),
            since: opt_view(self.since),
            until: opt_view(self.until),
            active: self.active,
            superseded: self.superseded,
            limit: match self.limit {
                Some(l) => Some(l as nat),
                None => None,
            },
        }
    }
}

impl Default for FilterArgs {
    fn default() -> (r: Self)
        ensures
            r@ == (FilterView {
                tags: seq![],
                since: None,
                until: None,
                active: false,
                superseded: false,
                limit: None,
            }),
    {
        let r = FilterArgs {
            tags: Vec::new(),
            since: None,
            until: None,
            active: false,
            superseded: false,
            limit: None,
        };
        assert(strings_view(r.tags@) =~= Seq::<Seq<char>>::empty());
        r
    }
}

/// An optional date that is absent or a real calendar date.
pub open spec fn opt_date_ok(o: Option<Seq<char>>) -> bool {
    match o {
        Some(d) => calendar_date(d),
        None => true,
    }
}

/// Whether `--since` sorts after `--until`.
pub open spec fn range_inverted(f: FilterView) -> bool {
    match (f.since, f.until) {
        (Some(s), Some(u)) => lex_lt(u, s),
        _ => false,
    }
}

/// Whether some tag filter is blank.
pub open spec fn blank_tag_filter(f: FilterView) -> bool {
    exists|i: int| 0 <= i < f.tags.len() && trim(#[trigger] f.tags[i]).len() == 0
}

/// The message for an inverted date range.
pub open spec fn inverted_range_message() -> Seq<char> {
    "--since cannot be after --until"@
}

/// The message for a blank tag filter.
pub open spec fn blank_tag_filter_message() -> Seq<char> {
    "tag filters cannot be empty"@
}

/// Check the filters before any entry is read: both dates real, in order,
/// and no blank tag.
pub fn validate_filters(filters: &FilterArgs) -> (r: Result<(), Error>)
    ensures
        ({
            let f = filters@;
            match r {
                Ok(()) => opt_date_ok(f.since) && opt_date_ok(f.until) && !range_inverted(f)
                    && !blank_tag_filter(f),
                Err(Error::BadDate { flag, value }) => (f.since matches Some(s) && !calendar_date(
                    s,
                ) && flag@ == "since"@ && value@ == s) || (opt_date_ok(f.since) && (
                f.until matches Some(u) && !calendar_date(u) && flag@ == "until"@ && value@ == u)),
                Err(Error::InvalidEntry(m)) => opt_date_ok(f.since) && opt_date_ok(f.until) && ((
                range_inverted(f) && m@ == inverted_range_message()) || (!range_inverted(f)
                    && blank_tag_filter(f) && m@ == blank_tag_filter_message())),
                Err(_) => false,
            }
        }),
{
    if let Some(since) = &filters.since {
        match validate_date_arg("since", since.as_str()) {
            Ok(()) => {},
            Err(e) => {
                return Err(e);
            },
        }
    }
    if let Some(until) = &filters.until {
        match validate_date_arg("until", until.as_str()) {
            Ok(()) => {},
            Err(e) => {
                return Err(e);
            },
        }
    }
    if let (Some(since), Some(until)) = (&filters.since, &filters.until) {
        let s = chars_of(since.as_str());
        let u = chars_of(until.as_str());
        if chars_lt(u.as_slice(), s.as_slice()) {
            return Err(Error::InvalidEntry(crate::text::owned("--since cannot be after --until")));
        }
    }
    let ghost f = filters@;
    let mut i: usize = 0;
    while i < filters.tags.len()
        invariant
            i <= filters.tags@.len(),
            f == filters@,
            opt_date_ok(f.since) && opt_date_ok(f.until) && !range_inverted(f),
            forall|j: int| 0 <= j < i ==> trim(#[trigger] f.tags[j]).len() != 0,
        decreases filters.tags@.len() - i,
    {
        assert(f.tags[i as int] == filters.tags@[i as int]@);
        let c = chars_of(filters.tags[i].as_str());
        let t = trim_chars(c.as_slice());
        if t.len() == 0 {
            assert(trim(f.tags[i as int]).len() == 0);
            return Err(Error::InvalidEntry(crate::text::owned("tag filters cannot be empty")));
        }
        i = i + 1;
    }
    Ok(())
}

/// Whether some tag of an entry equals `needle` once lower-cased.
pub open spec fn has_tag(tags: Seq<Seq<char>>, needle: Seq<char>) -> bool {
    exists|j: int| 0 <= j < tags.len() && lowercase(#[trigger] tags[j]) == needle
}

/// Whether entry `e` passes the filters and, when given, the search term:
/// the activity wanted, every tag filter among its tags, its date inside the
/// range, and the term inside its text, all compared ignoring case.
pub open spec fn entry_selected(e: EntryView, search: Option<Seq<char>>, f: FilterView) -> bool {
    &&& (!f.active || e.superseded_by.len() == 0)
    &&& (!f.superseded || e.superseded_by.len() > 0)
    &&& forall|k: int|
        0 <= k < f.tags.len() ==> has_tag(e.tags, lowercase(trim(#[trigger] f.tags[k])))
    &&& match f.since {
        Some(s) => e.date matches Some(d) && !lex_lt(d, s),
        None => true,
    }
    &&& match f.until {
        Some(u) => e.date matches Some(d) && lex_le(d, u),
        None => true,
    }
    &&& match search {
        Some(n) => contains(lowercase(e.raw), lowercase(n)),
        None => true,
    }
}

/// The indices below `n` of the entries selected, ascending.
pub open spec fn selected_below(
    es: Seq<EntryView>,
    search: Option<Seq<char>>,
    f: FilterView,
    n: int,
) -> Seq<int>
    decreases n,
{
    if n <= 0 {
        seq![]
    } else if entry_selected(es[n - 1], search, f) {
        selected_below(es, search, f, n - 1).push(n - 1)
    } else {
        selected_below(es, search, f, n - 1)
    }
}

/// The entries a listing shows: newest first and cut after `limit`, or in
/// file order keeping the last `limit`.
pub open spec fn matching_spec(
    es: Seq<EntryView>,
    search: Option<Seq<char>>,
    f: FilterView,
    newest_first: bool,
) -> Seq<int> {
    let m = selected_below(es, search, f, es.len() as int);
    if newest_first {
        match f.limit {
            Some(l) => if l < m.len() {
                m.reverse().take(l as int)
            } else {
                m.reverse()
            },
            None => m.reverse(),
        }
    } else {
        match f.limit {
            Some(l) => if l < m.len() {
                m.skip(m.len() - l)
            } else {
                m
            },
            None => m,
        }
    }
}

/// The lower-cased, trimmed tag filters.
fn tag_needles(filters: &FilterArgs) -> (r: Vec<Vec<char>>)
    ensures
        r@.len() == filters@.tags.len(),
        forall|k: int|
            0 <= k < r@.len() ==> (#[trigger] r@[k])@ == lowercase(trim(filters@.tags[k])),
{
    let ghost f = filters@;
    let mut out: Vec<Vec<char>> = Vec::new();
    let mut i: usize = 0;
    while i < filters.tags.len()
        invariant
            i <= filters.tags@.len(),
            f == filters@,
            out@.len() == i,
            forall|k: int| 0 <= k < i ==> (#[trigger] out@[k])@ == lowercase(trim(f.tags[k])),
        decreases filters.tags@.len() - i,
    {
        assert(f.tags[i as int] == filters.tags@[i as int]@);
        let c = chars_of(filters.tags[i].as_str());
        let t = string_of(trim_chars(c.as_slice()).as_slice());
        out.push(chars_of(to_lowercase(t.as_str()).as_str()));
        i = i + 1;
    }
    out
}

/// Whether some tag in `tags` lower-cases to `needle`.
fn any_tag_is(tags: &Vec<String>, needle: &[char]) -> (r: bool)
    ensures
        r == has_tag(strings_view(tags@), needle@),
{
    let ghost ts = strings_view(tags@);
    let mut i: usize = 0;
    while i < tags.len()
        invariant
            i <= tags@.len(),
            ts == strings_view(tags@),
            forall|j: int| 0 <= j < i ==> lowercase(#[trigger] ts[j]) != needle@,
        decreases tags@.len() - i,
    {
        assert(ts[i as int] == tags@[i as int]@);
        let low = chars_of(to_lowercase(tags[i].as_str()).as_str());
        if chars_eq(low.as_slice(), needle) {
            return true;
        }
        i = i + 1;
    }
    false
}

/// Whether every needle is among the tags of `e`.
fn all_tags_present(e: &Entry, needles: &Vec<Vec<char>>, Ghost(f): Ghost<FilterView>) -> (r: bool)
    requires
        needles@.len() == f.tags.len(),
        forall|k: int|
            0 <= k < needles@.len() ==> (#[trigger] needles@[k])@ == lowercase(trim(f.tags[k])),
    ensures
        r == forall|k: int|
            0 <= k < f.tags.len() ==> has_tag(e@.tags, lowercase(trim(#[trigger] f.tags[k]))),
{
    let mut i: usize = 0;
    while i < needles.len()
        invariant
            i <= needles@.len(),
            needles@.len() == f.tags.len(),
            forall|k: int|
                0 <= k < needles@.len() ==> (#[trigger] needles@[k])@ == lowercase(trim(f.tags[k])),
            forall|k: int| 0 <= k < i ==> has_tag(e@.tags, lowercase(trim(#[trigger] f.tags[k]))),
        decreases needles@.len() - i,
    {
        if !any_tag_is(&e.tags, needles[i].as_slice()) {
            assert(needles@[i as int]@ == lowercase(trim(f.tags[i as int])));
            return false;
        }
        i = i + 1;
    }
    true
}

/// Whether the optional date `d` satisfies the optional bound `b`:
/// at or after it when `lower`, at or before it otherwise.
fn date_within(d: &Option<String>, b: &Option<String>, lower: bool) -> (r: bool)
    ensures
        r == match opt_view(*b) {
            Some(s) => opt_view(*d) matches Some(x) && (if lower {
                !lex_lt(x, s)
            } else {
                lex_le(x, s)
            }),
            None => true,
        },
{
    match b {
        None => true,
        Some(s) => match d {
            None => false,
            Some(x) => {
                let xc = chars_of(x.as_str());
                let sc = chars_of(s.as_str());
                if lower {
                    !chars_lt(xc.as_slice(), sc.as_slice())
                } else {
                    chars_eq(xc.as_slice(), sc.as_slice()) || chars_lt(xc.as_slice(), sc.as_slice())
                }
            },
        },
    }
}

/// Whether one entry is selected, given the lower-cased search term and
/// tag filters.
fn is_selected(
    e: &Entry,
    term: &Option<Vec<char>>,
    needles: &Vec<Vec<char>>,
    filters: &FilterArgs,
    Ghost(search): Ghost<Option<Seq<char>>>,
) -> (r: bool)
    requires
        needles@.len() == filters@.tags.len(),
        forall|k: int|
            0 <= k < needles@.len() ==> (#[trigger] needles@[k])@ == lowercase(
                trim(filters@.tags[k]),
            ),
        match term {
            Some(v) => search matches Some(n) && v@ == lowercase(n),
            None => search is None,
        },
    ensures
        r == entry_selected(e@, search, filters@),
{
    if filters.active && !e.is_active() {
        return false;
    }
    if filters.superseded && e.is_active() {
        return false;
    }
    if !all_tags_present(e, needles, Ghost(filters@)) {
        return false;
    }
    if !date_within(&e.date, &filters.since, true) {
        return false;
    }
    if !date_within(&e.date, &filters.until, false) {
        return false;
    }
    match term {
        None => true,
        Some(t) => {
            let raw = chars_of(to_lowercase(e.raw.as_str()).as_str());
            find_exec(raw.as_slice(), t.as_slice()).is_some()
        },
    }
}

/// The indices of the entries a listing shows, in the order it shows them:
/// newest first when `newest_first`, else in file order keeping the last
/// `limit`.
pub fn matching_entries(
    entries: &[Entry],
    search: Option<&str>,
    filters: &FilterArgs,
    newest_first: bool,
) -> (r: Vec<usize>)
    ensures
        ints(r@) == matching_spec(
            entries_view(entries@),
            opt_str_view(search),
            filters@,
            newest_first,
        ),
{
    let ghost es = entries_view(entries@);
    let ghost sv = opt_str_view(search);
    let term = match search {
        Some(s) => Some(chars_of(to_lowercase(s).as_str())),
        None => None,
    };
    let needles = tag_needles(filters);
    let mut hits: Vec<usize> = Vec::new();
    let mut i: usize = 0;
    while i < entries.len()
        invariant
            i <= entries@.len(),
            es == entries_view(entries@),
            needles@.len() == filters@.tags.len(),
            forall|k: int|
                0 <= k < needles@.len() ==> (#[trigger] needles@[k])@ == lowercase(
                    trim(filters@.tags[k]),
                ),
            match term {
                Some(v) => sv matches Some(n) && v@ == lowercase(n),
                None => sv is None,
            },
            ints(hits@) == selected_below(es, sv, filters@, i as int),
            forall|k: int| 0 <= k < hits@.len() ==> (#[trigger] hits@[k]) < i,
        decreases entries@.len() - i,
    {
        assert(es[i as int] == entries@[i as int]@);
        if is_selected(&entries[i], &term, &needles, filters, Ghost(sv)) {
            let ghost before = ints(hits@);
            hits.push(i);
            assert(ints(hits@) =~= before.push(i as int));
        }
        i = i + 1;
    }
    let ghost m = ints(hits@);
    assert(m == selected_below(es, sv, filters@, es.len() as int));
    let n = hits.len();
    if newest_first {
        let keep = match filters.limit {
            Some(l) => if l < n {
                l
            } else {
                n
            },
            None => n,
        };
        let mut out: Vec<usize> = Vec::new();
        let mut k: usize = 0;
        while k < keep
            invariant
                keep <= n,
                n == hits@.len(),
                m == ints(hits@),
                k <= keep,
                out@.len() == k,
                forall|j: int| 0 <= j < k ==> #[trigger] out@[j] as int == m.reverse()[j],
            decreases keep - k,
        {
            assert(m[n - 1 - k as int] == hits@[n - 1 - k as int] as int);
            out.push(hits[n - 1 - k]);
            k = k + 1;
        }
        assert(ints(out@) =~= matching_spec(es, sv, filters@, newest_first));
        out
    } else {
        let from = match filters.limit {
            Some(l) => if l < n {
                n - l
            } else {
                0
            },
            None => 0,
        };
        let mut out: Vec<usize> = Vec::new();
        let mut k: usize = from;
        while k < n
            invariant
                from <= k <= n,
                n == hits@.len(),
                m == ints(hits@),
                out@.len() == k - from,
                forall|j: int| 0 <= j < k - from ==> #[trigger] out@[j] as int == m[j + from],
            decreases n - k,
        {
            assert(m[k as int] == hits@[k as int] as int);
            out.push(hits[k]);
            k = k + 1;
        }
        assert(ints(out@) =~= matching_spec(es, sv, filters@, newest_first));
        out
    }
}

} // verus!

verus! {

/// The entries dated `d` and, when `t` is given, titled `t`, ascending.
pub open spec fn decision_matches(es: Seq<EntryView>, d: Seq<char>, t: Option<Seq<char>>) -> Seq<
    int,
> {
    match t {
        Some(w) => titled_indices(es, d, w, es.len() as int),
        None => dated_indices(es, d, es.len() as int),
    }
}

/// The message when no decision has the date (and title).
pub open spec fn no_match_message(d: Seq<char>, t: Option<Seq<char>>) -> Seq<char> {
    "no decision matches "@ + d + match t {
        Some(w) => title_separator() + w,
        None => seq![],
    }
}

/// The message when several decisions have the date.
pub open spec fn ambiguous_message(d: Seq<char>) -> Seq<char> {
    "more than one decision matches "@ + d + "; pass --title"@
}

/// The indices of the entries dated `date` and, when given, titled `title`:
/// what `show` prints.
pub fn decisions_on(entries: &[Entry], date: &str, title: Option<&str>) -> (r: Vec<usize>)
    ensures
        ints(r@) == decision_matches(entries_view(entries@), date@, opt_str_view(title)),
        forall|k: int| 0 <= k < r@.len() ==> (#[trigger] r@[k]) < entries@.len(),
{
    let d = chars_of(date);
    let w = match title {
        Some(t) => chars_of(t),
        None => Vec::new(),
    };
    let (dated, titled) = dated_and_titled(entries, d.as_slice(), w.as_slice());
    proof {
        lemma_indices_in_range(entries_view(entries@), date@, w@);
    }
    let r = match title {
        Some(_) => titled,
        None => dated,
    };
    let ghost es = entries_view(entries@);
    assert forall|k: int| 0 <= k < r@.len() implies (#[trigger] r@[k]) < entries@.len() by {
        assert(ints(r@)[k] == r@[k] as int);
        if title.is_some() {
            assert(titled_indices(es, date@, w@, es.len() as int)[k] == r@[k] as int);
        } else {
            assert(dated_indices(es, date@, es.len() as int)[k] == r@[k] as int);
        }
    }
    r
}

/// The one decision dated `date` (and titled `title`, when given); refused
/// when there is none or more than one.
pub fn select_entry(entries: &[Entry], date: &str, title: Option<&str>) -> (r: Result<
    usize,
    Error,
>)
    ensures
        ({
            let m = decision_matches(entries_view(entries@), date@, opt_str_view(title));
            match r {
                Ok(i) => m.len() == 1 && i == m[0] && i < entries@.len(),
                Err(Error::InvalidEntry(msg)) => (m.len() == 0 && msg@ == no_match_message(
                    date@,
                    opt_str_view(title),
                )) || (m.len() > 1 && msg@ == ambiguous_message(date@)),
                Err(_) => false,
            }
        }),
{
    let hits = decisions_on(entries, date, title);
    if hits.len() == 1 {
        assert(ints(hits@)[0] == hits@[0] as int);
        return Ok(hits[0]);
    }
    let mut msg = String::new();
    if hits.len() == 0 {
        msg.push_str("no decision matches ");
        msg.push_str(date);
        if let Some(t) = title {
            msg.push_str(" — ");
            msg.push_str(t);
        }
        proof {
            reveal_strlit(" — ");
        }
        assert(msg@ =~= no_match_message(date@, opt_str_view(title)));
    } else {
        msg.push_str("more than one decision matches ");
        msg.push_str(date);
        msg.push_str("; pass --title");
    }
    Err(Error::InvalidEntry(msg))
}

} // verus!

verus! {

/// The entries before `before` that a link points at are all before it.
pub proof fn lemma_matching_prior_below(es: Seq<EntryView>, before: int, r: Seq<char>)
    requires
        0 <= before,
    ensures
        forall|k: int|
            0 <= k < matching_prior(es, before, r).len() ==> 0 <= #[trigger] matching_prior(
                es,
                before,
                r,
            )[k] < before,
    decreases before,
{
    if before > 0 {
        lemma_matching_prior_below(es, before - 1, r);
        let prev = matching_prior(es, before - 1, r);
        assert forall|k: int| 0 <= k < matching_prior(es, before, r).len() implies 0
            <= #[trigger] matching_prior(es, before, r)[k] < before by {
            if k < prev.len() {
                assert(matching_prior(es, before, r)[k] == prev[k]);
            }
        }
    }
}

/// The chain of decisions that entry `i` continues, oldest first and ending
/// at `i`: each entry's link names the one before it. `None` when a link on
/// the way names no entry or more than one.
pub open spec fn back_chain(es: Seq<EntryView>, i: int) -> Option<Seq<int>>
    decreases i,
{
    match es[i].supersedes {
        None => Some(seq![i]),
        Some(_) => match unique_target(es, i) {
            Some(p) => if 0 <= p < i {
                match back_chain(es, p) {
                    Some(c) => Some(c.push(i)),
                    None => None,
                }
            } else {
                None
            },
            None => None,
        },
    }
}

/// Whether entry `j`, later than `c`, names exactly entry `c` as the
/// decision it supersedes.
pub open spec fn is_child(es: Seq<EntryView>, c: int, j: int) -> bool {
    c < j && unique_target(es, j) == Some(c)
}

/// The entries below `n` that supersede exactly entry `c`, ascending.
pub open spec fn children_below(es: Seq<EntryView>, c: int, n: int) -> Seq<int>
    decreases n,
{
    if n <= 0 {
        seq![]
    } else if is_child(es, c, n - 1) {
        children_below(es, c, n - 1).push(n - 1)
    } else {
        children_below(es, c, n - 1)
    }
}

/// The decisions that follow entry `c`, each superseding the one before:
/// `None` when some decision on the way has more than one successor.
pub open spec fn forward_chain(es: Seq<EntryView>, c: int) -> Option<Seq<int>>
    decreases es.len() - c,
{
    let ch = children_below(es, c, es.len() as int);
    if ch.len() == 0 {
        Some(seq![])
    } else if ch.len() == 1 && c < ch[0] < es.len() {
        match forward_chain(es, ch[0]) {
            Some(f) => Some(seq![ch[0]] + f),
            None => None,
        }
    } else {
        None
    }
}

/// The whole supersession chain through entry `sel`, oldest first; `Err(0)`
/// when a backward link is broken, `Err(1)` when the chain branches forward.
pub open spec fn trace_spec(es: Seq<EntryView>, sel: int) -> Result<Seq<int>, int> {
    match back_chain(es, sel) {
        None => Err(0),
        Some(b) => match forward_chain(es, sel) {
            None => Err(1),
            Some(f) => Ok(b + f),
        },
    }
}

/// The message for a broken backward link.
pub open spec fn invalid_link_message() -> Seq<char> {
    "cannot trace an invalid supersession link; run `logbook check`"@
}

/// The message for a chain that branches.
pub open spec fn branched_message() -> Seq<char> {
    "cannot trace a branched supersession; run `logbook check`"@
}

/// `o` with `t` appended to the chain it holds.
pub open spec fn then_append(o: Option<Seq<int>>, t: Seq<int>) -> Option<Seq<int>> {
    match o {
        Some(c) => Some(c + t),
        None => None,
    }
}

/// `o` with `h` put in front of the chain it holds.
pub open spec fn then_prepend(h: Seq<int>, o: Option<Seq<int>>) -> Option<Seq<int>> {
    match o {
        Some(c) => Some(h + c),
        None => None,
    }
}

/// The children below `n` are later than `c` and below `n`, and each
/// supersedes exactly `c`.
pub proof fn lemma_children_below(es: Seq<EntryView>, c: int, n: int)
    requires
        0 <= n,
    ensures
        forall|k: int|
            0 <= k < children_below(es, c, n).len() ==> c < #[trigger] children_below(es, c, n)[k]
                < n && is_child(es, c, children_below(es, c, n)[k]),
    decreases n,
{
    if n > 0 {
        lemma_children_below(es, c, n - 1);
        let prev = children_below(es, c, n - 1);
        assert forall|k: int| 0 <= k < children_below(es, c, n).len() implies c
            < #[trigger] children_below(es, c, n)[k] < n && is_child(
            es,
            c,
            children_below(es, c, n)[k],
        ) by {
            if k < prev.len() {
                assert(children_below(es, c, n)[k] == prev[k]);
            }
        }
    }
}

/// The indices of the entries that supersede exactly entry `c`.
fn children_of(entries: &[Entry], c: usize) -> (r: Vec<usize>)
    requires
        c < entries@.len(),
    ensures
        ints(r@) == children_below(entries_view(entries@), c as int, entries@.len() as int),
{
    let ghost es = entries_view(entries@);
    let mut out: Vec<usize> = Vec::new();
    let mut j: usize = 0;
    while j < entries.len()
        invariant
            j <= entries@.len(),
            c < entries@.len(),
            es == entries_view(entries@),
            ints(out@) == children_below(es, c as int, j as int),
        decreases entries@.len() - j,
    {
        if c < j {
            match unique_target_exec(entries, j) {
                Some(t) => {
                    if t == c {
                        let ghost before = ints(out@);
                        out.push(j);
                        assert(ints(out@) =~= before.push(j as int));
                    }
                },
                None => {},
            }
        }
        j = j + 1;
    }
    out
}

/// The complete supersession chain through entry `selected`, oldest first:
/// back through the decisions it supersedes, then forward through the
/// decisions that supersede it. Refused when a link is broken or the chain
/// branches.
pub fn trace_chain(entries: &[Entry], selected: usize) -> (r: Result<Vec<usize>, Error>)
    requires
        selected < entries@.len(),
    ensures
        ({
            let t = trace_spec(entries_view(entries@), selected as int);
            match r {
                Ok(v) => t == Ok::<Seq<int>, int>(ints(v@)),
                Err(Error::InvalidEntry(m)) => (t == Err::<Seq<int>, int>(0) && m@
                    == invalid_link_message()) || (t == Err::<Seq<int>, int>(1) && m@
                    == branched_message()),
                Err(_) => false,
            }
        }),
{
    let ghost es = entries_view(entries@);
    let ghost sel = selected as int;
    // Walk back: `up` holds the entries met, newest first.
    let mut up: Vec<usize> = Vec::new();
    up.push(selected);
    let mut current: usize = selected;
    let ghost mut tail: Seq<int> = seq![];
    loop
        invariant
            current < entries@.len(),
            es == entries_view(entries@),
            sel == selected as int,
            up@.len() == tail.len() + 1,
            forall|k: int|
                0 <= k < up@.len() ==> #[trigger] up@[k] as int == (seq![current as int]
                    + tail)[up@.len() - 1 - k],
            back_chain(es, sel) == then_append(back_chain(es, current as int), tail),
        ensures
            current < entries@.len(),
            up@.len() == tail.len() + 1,
            forall|k: int|
                0 <= k < up@.len() ==> #[trigger] up@[k] as int == (seq![current as int]
                    + tail)[up@.len() - 1 - k],
            back_chain(es, sel) == Some(seq![current as int] + tail),
        decreases current,
    {
        assert(es[current as int] == entries@[current as int]@);
        if entries[current].supersedes.is_none() {
            assert(back_chain(es, current as int) == Some(seq![current as int]));
            break;
        }
        match unique_target_exec(entries, current) {
            Some(p) => {
                proof {
                    let r = es[current as int].supersedes->0;
                    lemma_matching_prior_below(es, current as int, r);
                    assert(matching_prior(es, current as int, r)[0] == p as int);
                    let c = back_chain(es, p as int);
                    assert(back_chain(es, current as int) == then_append(c, seq![current as int]));
                    match c {
                        Some(cc) => {
                            assert(cc.push(current as int) + tail =~= cc + (seq![current as int]
                                + tail));
                        },
                        None => {},
                    }
                    assert(up@.len() + 1 == (seq![p as int] + (seq![current as int] + tail)).len());
                }
                let ghost old_tail = tail;
                let ghost old_up = up@;
                up.push(p);
                proof {
                    tail = seq![current as int] + old_tail;
                    assert forall|k: int| 0 <= k < up@.len() implies #[trigger] up@[k] as int == (
                    seq![p as int] + tail)[up@.len() - 1 - k] by {
                        if k < old_up.len() {
                            assert(up@[k] == old_up[k]);
                        }
                    }
                }
                current = p;
            },
            None => {
                proof {
                    assert(back_chain(es, current as int) is None);
                    assert(back_chain(es, sel) is None);
                    assert(trace_spec(es, sel) == Err::<Seq<int>, int>(0));
                }
                let m = crate::text::owned(
                    "cannot trace an invalid supersession link; run `logbook check`",
                );
                assert(m@ == invalid_link_message());
                return Err(Error::InvalidEntry(m));
            },
        }
    }
    let ghost back = seq![current as int] + tail;
    // Walk forward from the selected entry.
    let mut down: Vec<usize> = Vec::new();
    let mut cur: usize = selected;
    loop
        invariant
            cur < entries@.len(),
            es == entries_view(entries@),
            sel == selected as int,
            back_chain(es, sel) == Some(back),
            forward_chain(es, sel) == then_prepend(ints(down@), forward_chain(es, cur as int)),
        ensures
            cur < entries@.len(),
            forward_chain(es, sel) == Some(ints(down@)),
        decreases entries@.len() - cur,
    {
        let children = children_of(entries, cur);
        proof {
            lemma_children_below(es, cur as int, es.len() as int);
        }
        if children.len() == 0 {
            assert(forward_chain(es, cur as int) == Some(Seq::<int>::empty()));
            assert(ints(down@) + Seq::<int>::empty() =~= ints(down@));
            break;
        } else if children.len() == 1 {
            let next = children[0];
            proof {
                assert(ints(children@)[0] == next as int);
                let f = forward_chain(es, next as int);
                assert(forward_chain(es, cur as int) == then_prepend(seq![next as int], f));
                match f {
                    Some(ff) => {
                        assert(ints(down@) + (seq![next as int] + ff) =~= ints(down@.push(next))
                            + ff);
                    },
                    None => {},
                }
            }
            down.push(next);
            cur = next;
        } else {
            assert(forward_chain(es, cur as int) is None);
            assert(trace_spec(es, sel) == Err::<Seq<int>, int>(1));
            let m = crate::text::owned("cannot trace a branched supersession; run `logbook check`");
            assert(m@ == branched_message());
            return Err(Error::InvalidEntry(m));
        }
    }
    // The chain: `up` reversed, then `down`.
    let mut chain: Vec<usize> = Vec::new();
    let n = up.len();
    let mut k: usize = 0;
    while k < n
        invariant
            n == up@.len(),
            n == back.len(),
            forall|j: int| 0 <= j < n ==> #[trigger] up@[j] as int == back[n - 1 - j],
            k <= n,
            chain@.len() == k,
            forall|j: int| 0 <= j < k ==> #[trigger] chain@[j] as int == back[j],
        decreases n - k,
    {
        assert(up@[n - 1 - k as int] as int == back[k as int]);
        chain.push(up[n - 1 - k]);
        k = k + 1;
    }
    let mut k: usize = 0;
    while k < down.len()
        invariant
            n == back.len(),
            k <= down@.len(),
            chain@.len() == n + k,
            forall|j: int| 0 <= j < n ==> #[trigger] chain@[j] as int == back[j],
            forall|j: int| n <= j < n + k ==> #[trigger] chain@[j] == down@[j - n],
        decreases down@.len() - k,
    {
        chain.push(down[k]);
        k = k + 1;
    }
    assert(ints(chain@) =~= back + ints(down@));
    Ok(chain)
}

} // verus!

verus! {

/// Whether the entry at position `k + 1` of chain `c` supersedes exactly
/// the one at position `k`.
pub open spec fn link_at(es: Seq<EntryView>, c: Seq<int>, k: int) -> bool {
    is_child(es, c[k], c[k + 1])
}

/// The backward chain of `i` ends at `i`, starts at an entry that
/// supersedes nothing, and each of its entries supersedes exactly the one
/// before it.
proof fn lemma_back_chain_links(es: Seq<EntryView>, i: int)
    requires
        0 <= i < es.len(),
        back_chain(es, i) is Some,
    ensures
        ({
            let c = back_chain(es, i)->0;
            &&& c.len() >= 1
            &&& c.last() == i
            &&& es[c[0]].supersedes is None
            &&& forall|k: int| 0 <= k < c.len() ==> 0 <= #[trigger] c[k] <= i
            &&& forall|k: int| 0 <= k < c.len() - 1 ==> #[trigger] link_at(es, c, k)
        }),
    decreases i,
{
    let c = back_chain(es, i)->0;
    if es[i].supersedes is Some {
        let p = unique_target(es, i)->0;
        lemma_back_chain_links(es, p);
        let cp = back_chain(es, p)->0;
        assert(c == cp.push(i));
        assert forall|k: int| 0 <= k < c.len() - 1 implies #[trigger] link_at(es, c, k) by {
            if k < cp.len() - 1 {
                assert(link_at(es, cp, k));
            }
        }
        assert forall|k: int| 0 <= k < c.len() implies 0 <= #[trigger] c[k] <= i by {
            if k < cp.len() {
                assert(c[k] == cp[k]);
            }
        }
    }
}

/// The forward chain of `c0`, with `c0` in front, links each entry to the
/// next and ends at an entry that nothing supersedes exactly.
proof fn lemma_forward_chain_links(es: Seq<EntryView>, c0: int)
    requires
        0 <= c0 < es.len(),
        forward_chain(es, c0) is Some,
    ensures
        ({
            let full = seq![c0] + forward_chain(es, c0)->0;
            &&& forall|k: int| 0 <= k < full.len() ==> c0 <= #[trigger] full[k] < es.len()
            &&& forall|k: int| 0 <= k < full.len() - 1 ==> #[trigger] link_at(es, full, k)
            &&& children_below(es, full.last(), es.len() as int).len() == 0
        }),
    decreases es.len() - c0,
{
    let ch = children_below(es, c0, es.len() as int);
    let full = seq![c0] + forward_chain(es, c0)->0;
    lemma_children_below(es, c0, es.len() as int);
    if ch.len() != 0 {
        let n = ch[0];
        lemma_forward_chain_links(es, n);
        let g = seq![n] + forward_chain(es, n)->0;
        assert(full =~= seq![c0] + g);
        assert(link_at(es, full, 0));
        assert forall|k: int| 0 <= k < full.len() - 1 implies #[trigger] link_at(es, full, k) by {
            if k > 0 {
                assert(link_at(es, g, k - 1));
            }
        }
        assert forall|k: int| 0 <= k < full.len() implies c0 <= #[trigger] full[k] < es.len() by {
            if k > 0 {
                assert(full[k] == g[k - 1]);
            }
        }
        assert(full.last() == g.last());
    }
}

/// What `trace` prints is a supersession chain: it holds the selected
/// entry, starts at a decision that supersedes nothing, ends at one that no
/// later decision supersedes, and each entry in it supersedes exactly the
/// one before it.
pub proof fn lemma_trace_is_chain(es: Seq<EntryView>, sel: int)
    requires
        0 <= sel < es.len(),
        trace_spec(es, sel) is Ok,
    ensures
        ({
            let chain = trace_spec(es, sel)->Ok_0;
            &&& chain.len() >= 1
            &&& chain.contains(sel)
            &&& forall|k: int| 0 <= k < chain.len() ==> 0 <= #[trigger] chain[k] < es.len()
            &&& es[chain[0]].supersedes is None
            &&& forall|k: int| 0 <= k < chain.len() - 1 ==> #[trigger] link_at(es, chain, k)
            &&& children_below(es, chain.last(), es.len() as int).len() == 0
        }),
{
    lemma_back_chain_links(es, sel);
    lemma_forward_chain_links(es, sel);
    let b = back_chain(es, sel)->0;
    let f = forward_chain(es, sel)->0;
    let full = seq![sel] + f;
    let chain = b + f;
    assert(chain =~= b.drop_last() + full);
    assert(chain[b.len() - 1] == sel);
    assert forall|k: int| 0 <= k < chain.len() - 1 implies #[trigger] link_at(es, chain, k) by {
        if k < b.len() - 1 {
            assert(link_at(es, b, k));
        } else {
            assert(link_at(es, full, k - b.len() + 1));
        }
    }
    assert forall|k: int| 0 <= k < chain.len() implies 0 <= #[trigger] chain[k] < es.len() by {
        if k < b.len() {
            assert(chain[k] == b[k]);
        } else {
            assert(chain[k] == full[k - b.len() + 1]);
        }
    }
    assert(chain.last() == full.last());
}

} // verus!

verus! {

/// Whether entry `e` is dated `d` and, when `t` is given, titled `t`.
pub open spec fn on_date_titled(e: EntryView, d: Seq<char>, t: Option<Seq<char>>) -> bool {
    e.date == Some(d) && (t matches Some(w) ==> e.title == Some(w))
}

proof fn lemma_dated_indices_exact(es: Seq<EntryView>, d: Seq<char>, n: int)
    requires
        0 <= n <= es.len(),
    ensures
        forall|k: int|
            0 <= k < dated_indices(es, d, n).len() ==> 0 <= #[trigger] dated_indices(es, d, n)[k]
                < n && es[dated_indices(es, d, n)[k]].date == Some(d),
        forall|i: int| 0 <= i < n && es[i].date == Some(d) ==> dated_indices(es, d, n).contains(i),
        forall|j: int, k: int|
            0 <= j < k < dated_indices(es, d, n).len() ==> #[trigger] dated_indices(es, d, n)[j]
                < #[trigger] dated_indices(es, d, n)[k],
    decreases n,
{
    if n > 0 {
        lemma_dated_indices_exact(es, d, n - 1);
        let p = dated_indices(es, d, n - 1);
        let m = dated_indices(es, d, n);
        if es[n - 1].date == Some(d) {
            assert(m == p.push(n - 1));
            assert forall|i: int| 0 <= i < n && es[i].date == Some(d) implies m.contains(i) by {
                if i < n - 1 {
                    assert(p.contains(i));
                    let j = choose|j: int| 0 <= j < p.len() && p[j] == i;
                    assert(m[j] == p[j]);
                    assert(m[j] == i);
                } else {
                    assert(m[p.len() as int] == i);
                }
            }
        } else {
            assert forall|i: int| 0 <= i < n && es[i].date == Some(d) implies m.contains(i) by {
                assert(i < n - 1);
            }
        }
    }
}

proof fn lemma_titled_indices_exact(es: Seq<EntryView>, d: Seq<char>, t: Seq<char>, n: int)
    requires
        0 <= n <= es.len(),
    ensures
        forall|k: int|
            0 <= k < titled_indices(es, d, t, n).len() ==> 0 <= #[trigger] titled_indices(
                es,
                d,
                t,
                n,
            )[k] < n && es[titled_indices(es, d, t, n)[k]].date == Some(d)
                && es[titled_indices(es, d, t, n)[k]].title == Some(t),
        forall|i: int|
            0 <= i < n && es[i].date == Some(d) && es[i].title == Some(t) ==> titled_indices(
                es,
                d,
                t,
                n,
            ).contains(i),
        forall|j: int, k: int|
            0 <= j < k < titled_indices(es, d, t, n).len() ==> #[trigger] titled_indices(
                es,
                d,
                t,
                n,
            )[j] < #[trigger] titled_indices(es, d, t, n)[k],
    decreases n,
{
    if n > 0 {
        lemma_titled_indices_exact(es, d, t, n - 1);
        let p = titled_indices(es, d, t, n - 1);
        let m = titled_indices(es, d, t, n);
        if es[n - 1].date == Some(d) && es[n - 1].title == Some(t) {
            assert(m == p.push(n - 1));
            assert forall|i: int|
                0 <= i < n && es[i].date == Some(d) && es[i].title == Some(t) implies m.contains(
                i,
            ) by {
                if i < n - 1 {
                    assert(p.contains(i));
                    let j = choose|j: int| 0 <= j < p.len() && p[j] == i;
                    assert(m[j] == p[j]);
                    assert(m[j] == i);
                } else {
                    assert(m[p.len() as int] == i);
                }
            }
        } else {
            assert forall|i: int|
                0 <= i < n && es[i].date == Some(d) && es[i].title == Some(t) implies m.contains(
                i,
            ) by {
                assert(i < n - 1);
            }
        }
    }
}

/// What `show` prints: exactly the entries dated `d` and, when a title is
/// given, titled with it, each once, in file order.
pub proof fn lemma_decisions_on_exact(es: Seq<EntryView>, d: Seq<char>, t: Option<Seq<char>>)
    ensures
        ({
            let m = decision_matches(es, d, t);
            &&& forall|k: int|
                0 <= k < m.len() ==> 0 <= #[trigger] m[k] < es.len() && on_date_titled(
                    es[m[k]],
                    d,
                    t,
                )
            &&& forall|i: int| 0 <= i < es.len() && on_date_titled(es[i], d, t) ==> m.contains(i)
            &&& forall|j: int, k: int| 0 <= j < k < m.len() ==> #[trigger] m[j] < #[trigger] m[k]
        }),
{
    match t {
        Some(w) => lemma_titled_indices_exact(es, d, w, es.len() as int),
        None => lemma_dated_indices_exact(es, d, es.len() as int),
    }
}

} // verus!

verus! {

/// What a listing's filters ask of an entry: the wanted activity, every tag
/// filter among its tags ignoring case, a date on or after `--since` and on
/// or before `--until`, and the search term in its text ignoring case.
pub open spec fn wanted_by_filters(e: EntryView, search: Option<Seq<char>>, f: FilterView) -> bool {
    &&& f.active ==> e.superseded_by.len() == 0
    &&& f.superseded ==> e.superseded_by.len() > 0
    &&& forall|k: int|
        0 <= k < f.tags.len() ==> has_tag(e.tags, lowercase(trim(#[trigger] f.tags[k])))
    &&& f.since matches Some(s) ==> (e.date matches Some(d) && lex_le(s, d))
    &&& f.until matches Some(u) ==> (e.date matches Some(d) && lex_le(d, u))
    &&& search matches Some(n) ==> contains(lowercase(e.raw), lowercase(n))
}

proof fn lemma_selected_iff_wanted(e: EntryView, search: Option<Seq<char>>, f: FilterView)
    ensures
        entry_selected(e, search, f) <==> wanted_by_filters(e, search, f),
{
    match (f.since, e.date) {
        (Some(s), Some(d)) => {
            crate::text::lemma_lex_lt_total(d, s);
            crate::text::lemma_lex_lt_irreflexive(d);
        },
        _ => {},
    }
}

proof fn lemma_selected_below_exact(
    es: Seq<EntryView>,
    search: Option<Seq<char>>,
    f: FilterView,
    n: int,
)
    requires
        0 <= n <= es.len(),
    ensures
        forall|k: int|
            0 <= k < selected_below(es, search, f, n).len() ==> 0 <= #[trigger] selected_below(
                es,
                search,
                f,
                n,
            )[k] < n && entry_selected(es[selected_below(es, search, f, n)[k]], search, f),
        forall|i: int|
            0 <= i < n && entry_selected(es[i], search, f) ==> selected_below(
                es,
                search,
                f,
                n,
            ).contains(i),
        forall|j: int, k: int|
            0 <= j < k < selected_below(es, search, f, n).len() ==> #[trigger] selected_below(
                es,
                search,
                f,
                n,
            )[j] < #[trigger] selected_below(es, search, f, n)[k],
    decreases n,
{
    if n > 0 {
        lemma_selected_below_exact(es, search, f, n - 1);
        let p = selected_below(es, search, f, n - 1);
        let m = selected_below(es, search, f, n);
        if entry_selected(es[n - 1], search, f) {
            assert(m == p.push(n - 1));
            assert forall|i: int| 0 <= i < n && entry_selected(es[i], search, f) implies m.contains(
                i,
            ) by {
                if i < n - 1 {
                    assert(p.contains(i));
                    let j = choose|j: int| 0 <= j < p.len() && p[j] == i;
                    assert(m[j] == p[j]);
                } else {
                    assert(m[p.len() as int] == i);
                }
            }
        } else {
            assert forall|i: int| 0 <= i < n && entry_selected(es[i], search, f) implies m.contains(
                i,
            ) by {
                assert(i < n - 1);
            }
        }
    }
}

/// What a listing shows. Every shown entry is wanted by the filters (so an
/// entry dated on the `--since` or the `--until` day is within the range).
/// A wanted entry is left out only when `limit` entries are shown, all of
/// them newer. Newest first the indices fall, in file order they rise, and
/// no more than `limit` are shown.
pub proof fn lemma_listing_exact(
    es: Seq<EntryView>,
    search: Option<Seq<char>>,
    f: FilterView,
    newest_first: bool,
)
    ensures
        ({
            let m = matching_spec(es, search, f, newest_first);
            &&& forall|k: int|
                0 <= k < m.len() ==> 0 <= #[trigger] m[k] < es.len() && wanted_by_filters(
                    es[m[k]],
                    search,
                    f,
                )
            &&& forall|i: int|
                0 <= i < es.len() && wanted_by_filters(es[i], search, f) && !m.contains(i) ==> (
                f.limit matches Some(l) && m.len() == l && forall|k: int|
                    0 <= k < m.len() ==> i < #[trigger] m[k])
            &&& forall|j: int, k: int|
                0 <= j < k < m.len() ==> (if newest_first {
                    #[trigger] m[j] > #[trigger] m[k]
                } else {
                    m[j] < m[k]
                })
            &&& f.limit matches Some(l) ==> m.len() <= l
        }),
{
    let n = es.len() as int;
    lemma_selected_below_exact(es, search, f, n);
    let sel = selected_below(es, search, f, n);
    let c = sel.len() as int;
    let m = matching_spec(es, search, f, newest_first);
    let keep: int = match f.limit {
        Some(l) => if l < c {
            l as int
        } else {
            c
        },
        None => c,
    };
    assert(m.len() == keep);
    assert forall|k: int| 0 <= k < m.len() implies m[k] == (if newest_first {
        sel[c - 1 - k]
    } else {
        sel[k + c - keep]
    }) by {}
    assert forall|k: int| 0 <= k < m.len() implies 0 <= #[trigger] m[k] < es.len()
        && wanted_by_filters(es[m[k]], search, f) by {
        let x = if newest_first {
            c - 1 - k
        } else {
            k + c - keep
        };
        assert(m[k] == sel[x]);
        lemma_selected_iff_wanted(es[sel[x]], search, f);
    }
    assert forall|i: int|
        0 <= i < es.len() && wanted_by_filters(es[i], search, f) && !m.contains(i) implies (
    f.limit matches Some(l) && m.len() == l && forall|k: int|
        0 <= k < m.len() ==> i < #[trigger] m[k]) by {
        lemma_selected_iff_wanted(es[i], search, f);
        assert(sel.contains(i));
        let j = choose|j: int| 0 <= j < c && sel[j] == i;
        if j >= c - keep {
            let k = if newest_first {
                c - 1 - j
            } else {
                j - (c - keep)
            };
            assert(m[k] == sel[j]);
        }
        assert(j < c - keep);
        assert forall|k: int| 0 <= k < m.len() implies i < #[trigger] m[k] by {
            let x = if newest_first {
                c - 1 - k
            } else {
                k + c - keep
            };
            assert(m[k] == sel[x]);
        }
    }
    assert forall|j: int, k: int| 0 <= j < k < m.len() implies (if newest_first {
        #[trigger] m[j] > #[trigger] m[k]
    } else {
        m[j] < m[k]
    }) by {
        if newest_first {
            assert(m[j] == sel[c - 1 - j] && m[k] == sel[c - 1 - k]);
        } else {
            assert(m[j] == sel[j + c - keep] && m[k] == sel[k + c - keep]);
        }
    }
}

} // verus!
