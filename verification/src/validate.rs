//! Structural checks for parsed decision logs.
use vstd::prelude::*;

use crate::parse::{
    strings_view, entries_view, matching_prior, matching_prior_entries, ref_of, unique_target,
    unique_target_exec, Entry, EntryView,
};
use crate::text::{chars_eq, chars_of, decimal, decimal_chars, owned, string_of};
use crate::{calendar_date, is_valid_date};

verus! {

/// One problem found by [`validate_entries`].
#[derive(Debug, Clone, PartialEq, Eq)]
pub struct ValidationIssue {
    /// One-based entry number in document order.
    pub entry: usize,
    /// Human-readable description of the problem.
    pub message: String,
}

impl View for ValidationIssue {
    type V = (int, Seq<char>);

    open spec fn view(&self) -> (int, Seq<char>) {
        (self.entry as int, self.message@)
    }
}

/// The views of a sequence of issues.
pub open spec fn issues_view(v: Seq<ValidationIssue>) -> Seq<(int, Seq<char>)> {
    Seq::new(v.len(), |i: int| v[i]@)
}

/// What `format!("{:?}", s)` writes for a string: Rust's quoted, escaped
/// debug form.
pub uninterp spec fn debug_quoted(s: Seq<char>) -> Seq<char>;

/// `format!("{s:?}")`: the `Debug` form of a string slice. The claim is only
/// that the result is a function of the characters of `s`, named [`debug_quoted`].
#[verifier::external_body]
fn debug_string(s: &str) -> (r: String)
    ensures
        r@ == debug_quoted(s@),
{
    format!("{s:?}")
}

/// The date problem of an entry, if any.
pub open spec fn date_messages(e: EntryView) -> Seq<Seq<char>> {
    match e.date {
        Some(d) => if calendar_date(d) {
            seq![]
        } else {
            seq!["invalid calendar date "@ + d]
        },
        None => seq!["heading is missing a YYYY-MM-DD date"@],
    }
}

/// The title problem of an entry, if any.
pub open spec fn title_messages(e: EntryView) -> Seq<Seq<char>> {
    match e.title {
        Some(t) => if t.len() > 0 {
            seq![]
        } else {
            seq!["heading is missing a title"@]
        },
        None => seq!["heading is missing a title"@],
    }
}

/// The `why` problem of an entry, if any.
pub open spec fn why_messages(e: EntryView) -> Seq<Seq<char>> {
    match e.why {
        Some(w) => if w.len() > 0 {
            seq![]
        } else {
            seq!["entry is missing a non-empty why field"@]
        },
        None => seq!["entry is missing a non-empty why field"@],
    }
}

/// The problem with entry `k`'s supersession link: it points at no earlier
/// entry, or at more than one.
pub open spec fn link_messages(es: Seq<EntryView>, k: int) -> Seq<Seq<char>> {
    match es[k].supersedes {
        Some(r) => {
            let m = matching_prior(es, k, r);
            if m.len() == 1 {
                seq![]
            } else if m.len() == 0 {
                seq![
                    "supersedes target "@ + debug_quoted(r)
                        + " does not identify an earlier entry"@,
                ]
            } else {
                seq!["supersedes target "@ + debug_quoted(r) + " is ambiguous"@]
            }
        },
        None => seq![],
    }
}

/// Whether another entry has the same `date — title` reference as entry `k`.
pub open spec fn has_duplicate(es: Seq<EntryView>, k: int) -> bool {
    &&& ref_of(es[k]) is Some
    &&& exists|j: int| 0 <= j < es.len() && j != k && #[trigger] ref_of(es[j]) == ref_of(es[k])
}

/// The duplicate-reference problem of entry `k`, if any.
pub open spec fn duplicate_messages(es: Seq<EntryView>, k: int) -> Seq<Seq<char>> {
    if has_duplicate(es, k) {
        seq!["duplicate decision reference "@ + debug_quoted(ref_of(es[k])->0)]
    } else {
        seq![]
    }
}

/// How many entries before `n` supersede entry `t` through a link that
/// identifies it uniquely.
pub open spec fn successor_count(es: Seq<EntryView>, t: int, n: int) -> nat
    decreases n,
{
    if n <= 0 {
        0
    } else if unique_target(es, n - 1) == Some(t) {
        successor_count(es, t, n - 1) + 1
    } else {
        successor_count(es, t, n - 1)
    }
}

/// The branching problem of entry `k`: more than one entry supersedes it.
pub open spec fn branch_messages(es: Seq<EntryView>, k: int) -> Seq<Seq<char>> {
    let c = successor_count(es, k, es.len() as int);
    if c > 1 {
        seq!["decision is superseded by "@ + decimal(c) + " different entries"@]
    } else {
        seq![]
    }
}

/// All problems of entry `k`, in the order date, title, why, link,
/// duplicate reference, branching.
pub open spec fn entry_messages(es: Seq<EntryView>, k: int) -> Seq<Seq<char>> {
    date_messages(es[k]) + title_messages(es[k]) + why_messages(es[k]) + link_messages(es, k)
        + duplicate_messages(es, k) + branch_messages(es, k)
}

/// Each message paired with entry number `n`.
pub open spec fn numbered(msgs: Seq<Seq<char>>, n: int) -> Seq<(int, Seq<char>)> {
    Seq::new(msgs.len(), |i: int| (n, msgs[i]))
}

/// The issues of the first `n` entries, ordered by entry number, each entry's
/// problems in [`entry_messages`] order, numbered from one.
pub open spec fn issues_spec(es: Seq<EntryView>, n: int) -> Seq<(int, Seq<char>)>
    decreases n,
{
    if n <= 0 {
        seq![]
    } else {
        issues_spec(es, n - 1) + numbered(entry_messages(es, n - 1), n)
    }
}


/// Entry `k` passes every check.
pub open spec fn entry_sound(es: Seq<EntryView>, k: int) -> bool {
    &&& (es[k].date matches Some(d) && calendar_date(d))
    &&& (es[k].title matches Some(t) && t.len() > 0)
    &&& (es[k].why matches Some(w) && w.len() > 0)
    &&& (es[k].supersedes matches Some(r) ==> matching_prior(es, k, r).len() == 1)
    &&& !has_duplicate(es, k)
    &&& successor_count(es, k, es.len() as int) <= 1
}

proof fn lemma_entry_messages_empty(es: Seq<EntryView>, k: int)
    requires
        0 <= k < es.len(),
    ensures
        entry_messages(es, k).len() == 0 <==> entry_sound(es, k),
{
}

/// The check reports nothing exactly when every entry has a real calendar
/// date, a non-empty title and why, a supersedes link (if any) that
/// identifies exactly one earlier entry, a reference no other entry shares,
/// and at most one successor.
pub proof fn lemma_check_passes_iff_sound(es: Seq<EntryView>, n: int)
    requires
        0 <= n <= es.len(),
    ensures
        issues_spec(es, n).len() == 0 <==> forall|k: int| 0 <= k < n ==> entry_sound(es, k),
    decreases n,
{
    if n > 0 {
        lemma_check_passes_iff_sound(es, n - 1);
        lemma_entry_messages_empty(es, n - 1);
        if issues_spec(es, n).len() == 0 {
            assert forall|k: int| 0 <= k < n implies entry_sound(es, k) by {
                if k == n - 1 {
                } else {
                }
            }
        }
    }
}

/// Issues come in entry order, each numbered within `1..=n`.
pub proof fn lemma_issues_ordered(es: Seq<EntryView>, n: int)
    requires
        0 <= n,
    ensures
        forall|i: int| 0 <= i < issues_spec(es, n).len() ==> 1 <= (#[trigger] issues_spec(es, n)[i]).0 <= n,
        forall|i: int, j: int|
            0 <= i < j < issues_spec(es, n).len() ==> (#[trigger] issues_spec(es, n)[i]).0 <= (
            #[trigger] issues_spec(es, n)[j]).0,
    decreases n,
{
    if n > 0 {
        lemma_issues_ordered(es, n - 1);
        let prev = issues_spec(es, n - 1);
        let all = issues_spec(es, n);
        assert forall|i: int| 0 <= i < all.len() implies 1 <= (#[trigger] all[i]).0 <= n by {
            if i < prev.len() {
                assert(all[i] == prev[i]);
            }
        }
        assert forall|i: int, j: int| 0 <= i < j < all.len() implies (#[trigger] all[i]).0 <= (
        #[trigger] all[j]).0 by {
            if j < prev.len() {
                assert(all[i] == prev[i]);
                assert(all[j] == prev[j]);
            } else if i < prev.len() {
                assert(all[i] == prev[i]);
            }
        }
    }
}

/// Whether no text in `ms` is empty.
pub open spec fn all_nonempty(ms: Seq<Seq<char>>) -> bool {
    forall|i: int| 0 <= i < ms.len() ==> (#[trigger] ms[i]).len() > 0
}

proof fn lemma_all_nonempty_concat(a: Seq<Seq<char>>, b: Seq<Seq<char>>)
    requires
        all_nonempty(a),
        all_nonempty(b),
    ensures
        all_nonempty(a + b),
{
    assert forall|i: int| 0 <= i < (a + b).len() implies (#[trigger] (a + b)[i]).len() > 0 by {
        if i < a.len() {
            assert((a + b)[i] == a[i]);
        } else {
            assert((a + b)[i] == b[i - a.len()]);
        }
    }
}

/// Every problem of an entry is described by a non-empty message.
proof fn lemma_entry_messages_nonempty(es: Seq<EntryView>, k: int)
    ensures
        all_nonempty(entry_messages(es, k)),
{
    reveal_strlit("invalid calendar date ");
    reveal_strlit("heading is missing a YYYY-MM-DD date");
    reveal_strlit("heading is missing a title");
    reveal_strlit("entry is missing a non-empty why field");
    reveal_strlit("supersedes target ");
    reveal_strlit("duplicate decision reference ");
    reveal_strlit("decision is superseded by ");
    let e = es[k];
    assert(all_nonempty(date_messages(e)));
    assert(all_nonempty(title_messages(e)));
    assert(all_nonempty(why_messages(e)));
    assert(all_nonempty(link_messages(es, k)));
    assert(all_nonempty(duplicate_messages(es, k)));
    assert(all_nonempty(branch_messages(es, k)));
    lemma_all_nonempty_concat(date_messages(e), title_messages(e));
    lemma_all_nonempty_concat(date_messages(e) + title_messages(e), why_messages(e));
    lemma_all_nonempty_concat(
        date_messages(e) + title_messages(e) + why_messages(e),
        link_messages(es, k),
    );
    lemma_all_nonempty_concat(
        date_messages(e) + title_messages(e) + why_messages(e) + link_messages(es, k),
        duplicate_messages(es, k),
    );
    lemma_all_nonempty_concat(
        date_messages(e) + title_messages(e) + why_messages(e) + link_messages(es, k)
            + duplicate_messages(es, k),
        branch_messages(es, k),
    );
}

/// Every issue the check reports carries a non-empty message.
pub proof fn lemma_issue_messages_nonempty(es: Seq<EntryView>, n: int)
    requires
        0 <= n,
    ensures
        forall|i: int|
            0 <= i < issues_spec(es, n).len() ==> (#[trigger] issues_spec(es, n)[i]).1.len() > 0,
    decreases n,
{
    if n > 0 {
        lemma_issue_messages_nonempty(es, n - 1);
        lemma_entry_messages_nonempty(es, n - 1);
        let prev = issues_spec(es, n - 1);
        let ms = entry_messages(es, n - 1);
        let all = issues_spec(es, n);
        assert forall|i: int| 0 <= i < all.len() implies (#[trigger] all[i]).1.len() > 0 by {
            if i < prev.len() {
                assert(all[i] == prev[i]);
            } else {
                assert(all[i] == numbered(ms, n)[i - prev.len()]);
                assert(ms[i - prev.len()].len() > 0);
            }
        }
    }
}

/// Append issue `message` for zero-based entry `index`.
fn issue(issues: &mut Vec<ValidationIssue>, index: usize, message: String)
    requires
        index < usize::MAX,
    ensures
        issues_view(final(issues)@) == issues_view(old(issues)@).push((index + 1, message@)),
{
    issues.push(ValidationIssue { entry: index + 1, message });
    assert(issues_view(final(issues)@) =~= issues_view(old(issues)@).push((index + 1, message@)));
}

/// A fixed message followed by `value` and a fixed tail.
fn message3(head: &str, value: &str, tail: &str) -> (r: String)
    ensures
        r@ == head@ + value@ + tail@,
{
    let mut s = String::new();
    s.push_str(head);
    s.push_str(value);
    s.push_str(tail);
    s
}

/// Whether another entry has the same reference as entry `k`.
fn duplicate_of(entries: &[Entry], refs: &Vec<Option<Vec<char>>>, k: usize) -> (r: bool)
    requires
        k < entries@.len(),
        refs@.len() == entries@.len(),
        forall|j: int|
            0 <= j < entries@.len() ==> match #[trigger] refs@[j] {
                Some(x) => ref_of(entries@[j]@) == Some(x@),
                None => ref_of(entries@[j]@) is None,
            },
    ensures
        r == has_duplicate(entries_view(entries@), k as int),
{
    let ghost es = entries_view(entries@);
    assert(es[k as int] == entries@[k as int]@);
    let mine = match &refs[k] {
        Some(x) => x,
        None => {
            return false;
        },
    };
    let mut j: usize = 0;
    while j < refs.len()
        invariant
            k < entries@.len(),
            refs@.len() == entries@.len(),
            es == entries_view(entries@),
            refs@[k as int] == Some(*mine),
            forall|i: int|
                0 <= i < entries@.len() ==> match #[trigger] refs@[i] {
                    Some(x) => ref_of(entries@[i]@) == Some(x@),
                    None => ref_of(entries@[i]@) is None,
                },
            j <= refs@.len(),
            forall|i: int| 0 <= i < j && i != k ==> ref_of(#[trigger] es[i]) != ref_of(es[k as int]),
        decreases refs@.len() - j,
    {
        assert(es[j as int] == entries@[j as int]@);
        if j != k {
            match &refs[j] {
                Some(x) => {
                    if chars_eq(x.as_slice(), mine.as_slice()) {
                        assert(ref_of(es[j as int]) == ref_of(es[k as int]));
                        return true;
                    }
                },
                None => {},
            }
        }
        j = j + 1;
    }
    false
}

/// One message, or none.
fn one_or_none(present: bool, msg: String) -> (r: Vec<String>)
    ensures
        strings_view(r@) == (if present {
            seq![msg@]
        } else {
            seq![]
        }),
{
    let mut v: Vec<String> = Vec::new();
    if present {
        v.push(msg);
    }
    assert(strings_view(v@) =~= (if present {
        seq![msg@]
    } else {
        seq![]
    }));
    v
}

/// The date problem of `e`, as [`date_messages`] states it.
fn date_problems(e: &Entry) -> (r: Vec<String>)
    ensures
        strings_view(r@) == date_messages(e@),
{
    match &e.date {
        Some(d) => {
            let bad = !is_valid_date(d.as_str());
            let msg = message3("invalid calendar date ", d.as_str(), "");
            assert(""@ =~= Seq::<char>::empty()) by {
                reveal_strlit("");
            }
            assert(msg@ =~= "invalid calendar date "@ + d@);
            one_or_none(bad, msg)
        },
        None => one_or_none(true, owned("heading is missing a YYYY-MM-DD date")),
    }
}

/// The title problem of `e`, as [`title_messages`] states it.
fn title_problems(e: &Entry) -> (r: Vec<String>)
    ensures
        strings_view(r@) == title_messages(e@),
{
    let missing = match &e.title {
        Some(t) => t.as_str().is_empty(),
        None => true,
    };
    one_or_none(missing, owned("heading is missing a title"))
}

/// The `why` problem of `e`, as [`why_messages`] states it.
fn why_problems(e: &Entry) -> (r: Vec<String>)
    ensures
        strings_view(r@) == why_messages(e@),
{
    let missing = match &e.why {
        Some(w) => w.as_str().is_empty(),
        None => true,
    };
    one_or_none(missing, owned("entry is missing a non-empty why field"))
}

/// The link problem of entry `k`, as [`link_messages`] states it.
fn link_problems(entries: &[Entry], k: usize) -> (r: Vec<String>)
    requires
        k < entries@.len(),
    ensures
        strings_view(r@) == link_messages(entries_view(entries@), k as int),
{
    assert(entries_view(entries@)[k as int] == entries@[k as int]@);
    match &entries[k].supersedes {
        Some(r) => {
            let m = matching_prior_entries(entries, k, r.as_str());
            let q = debug_string(r.as_str());
            if m.len() == 0 {
                one_or_none(
                    true,
                    message3("supersedes target ", q.as_str(), " does not identify an earlier entry"),
                )
            } else {
                one_or_none(
                    m.len() > 1,
                    message3("supersedes target ", q.as_str(), " is ambiguous"),
                )
            }
        },
        None => one_or_none(false, String::new()),
    }
}

/// The duplicate-reference problem of entry `k`, as [`duplicate_messages`] states it.
fn duplicate_problems(entries: &[Entry], refs: &Vec<Option<Vec<char>>>, k: usize) -> (r: Vec<
    String,
>)
    requires
        k < entries@.len(),
        refs@.len() == entries@.len(),
        forall|j: int|
            0 <= j < entries@.len() ==> match #[trigger] refs@[j] {
                Some(x) => ref_of(entries@[j]@) == Some(x@),
                None => ref_of(entries@[j]@) is None,
            },
    ensures
        strings_view(r@) == duplicate_messages(entries_view(entries@), k as int),
{
    assert(entries_view(entries@)[k as int] == entries@[k as int]@);
    let dup = duplicate_of(entries, refs, k);
    let x = match entries[k].reference() {
        Some(x) => x,
        None => String::new(),
    };
    let q = debug_string(x.as_str());
    let msg = message3("duplicate decision reference ", q.as_str(), "");
    assert(""@ =~= Seq::<char>::empty()) by {
        reveal_strlit("");
    }
    one_or_none(dup, msg)
}

/// The branching problem of entry `k`, as [`branch_messages`] states it.
fn branch_problems(entries: &[Entry], targets: &Vec<Option<usize>>, k: usize) -> (r: Vec<String>)
    requires
        k < entries@.len(),
        targets@.len() == entries@.len(),
        forall|i: int|
            0 <= i < entries@.len() ==> match #[trigger] targets@[i] {
                Some(t) => unique_target(entries_view(entries@), i) == Some(t as int),
                None => unique_target(entries_view(entries@), i) is None,
            },
    ensures
        strings_view(r@) == branch_messages(entries_view(entries@), k as int),
{
    let ghost es = entries_view(entries@);
    let n = entries.len();
    let mut count: usize = 0;
    let mut c: usize = 0;
    while c < n
        invariant
            n == entries@.len(),
            es == entries_view(entries@),
            k < n,
            c <= n,
            targets@.len() == n,
            forall|i: int|
                0 <= i < n ==> match #[trigger] targets@[i] {
                    Some(t) => unique_target(es, i) == Some(t as int),
                    None => unique_target(es, i) is None,
                },
            count == successor_count(es, k as int, c as int),
            count <= c,
        decreases n - c,
    {
        if targets[c] == Some(k) {
            count = count + 1;
        }
        c = c + 1;
    }
    let digits = decimal_chars(count);
    let ds = string_of(digits.as_slice());
    one_or_none(count > 1, message3("decision is superseded by ", ds.as_str(), " different entries"))
}

/// Append `more` to `v`.
fn append_strings(v: &mut Vec<String>, more: Vec<String>)
    ensures
        strings_view(final(v)@) == strings_view(old(v)@) + strings_view(more@),
{
    let ghost m0 = more@;
    let mut more = more;
    v.append(&mut more);
    assert(strings_view(v@) =~= strings_view(old(v)@) + strings_view(m0));
}

/// Validate required fields, calendar dates, and supersession links.
pub fn validate_entries(entries: &[Entry]) -> (r: Vec<ValidationIssue>)
    requires
        entries@.len() < usize::MAX,
    ensures
        issues_view(r@) == issues_spec(entries_view(entries@), entries@.len() as int),
{
    let ghost es = entries_view(entries@);
    let n = entries.len();
    let mut targets: Vec<Option<usize>> = Vec::new();
    let mut refs: Vec<Option<Vec<char>>> = Vec::new();
    let mut c: usize = 0;
    while c < n
        invariant
            n == entries@.len(),
            es == entries_view(entries@),
            c <= n,
            targets@.len() == c,
            refs@.len() == c,
            forall|k: int|
                0 <= k < c ==> match #[trigger] targets@[k] {
                    Some(t) => unique_target(es, k) == Some(t as int),
                    None => unique_target(es, k) is None,
                },
            forall|j: int|
                0 <= j < c ==> match #[trigger] refs@[j] {
                    Some(x) => ref_of(entries@[j]@) == Some(x@),
                    None => ref_of(entries@[j]@) is None,
                },
        decreases n - c,
    {
        targets.push(unique_target_exec(entries, c));
        let rc = match entries[c].reference() {
            Some(x) => Some(chars_of(x.as_str())),
            None => None,
        };
        refs.push(rc);
        c = c + 1;
    }
    let mut issues: Vec<ValidationIssue> = Vec::new();
    let mut k: usize = 0;
    while k < n
        invariant
            n == entries@.len(),
            n < usize::MAX,
            es == entries_view(entries@),
            k <= n,
            targets@.len() == n,
            refs@.len() == n,
            forall|i: int|
                0 <= i < n ==> match #[trigger] targets@[i] {
                    Some(t) => unique_target(es, i) == Some(t as int),
                    None => unique_target(es, i) is None,
                },
            forall|j: int|
                0 <= j < n ==> match #[trigger] refs@[j] {
                    Some(x) => ref_of(entries@[j]@) == Some(x@),
                    None => ref_of(entries@[j]@) is None,
                },
            issues_view(issues@) == issues_spec(es, k as int),
        decreases n - k,
    {
        let e = &entries[k];
        assert(es[k as int] == e@);
        let mut msgs = date_problems(e);
        append_strings(&mut msgs, title_problems(e));
        append_strings(&mut msgs, why_problems(e));
        append_strings(&mut msgs, link_problems(entries, k));
        append_strings(&mut msgs, duplicate_problems(entries, &refs, k));
        append_strings(&mut msgs, branch_problems(entries, &targets, k));
        assert(strings_view(msgs@) =~= entry_messages(es, k as int));
        let ghost before = issues_view(issues@);
        let mut i: usize = 0;
        while i < msgs.len()
            invariant
                k < n,
                n < usize::MAX,
                i <= msgs@.len(),
                issues_view(issues@) == before + numbered(
                    strings_view(msgs@).take(i as int),
                    k as int + 1,
                ),
            decreases msgs@.len() - i,
        {
            let m = string_of(chars_of(msgs[i].as_str()).as_slice());
            issue(&mut issues, k, m);
            i = i + 1;
            assert(issues_view(issues@) =~= before + numbered(
                strings_view(msgs@).take(i as int),
                k as int + 1,
            ));
        }
        assert(strings_view(msgs@).take(msgs@.len() as int) =~= strings_view(msgs@));
        k = k + 1;
    }
    issues
}

} // verus!
