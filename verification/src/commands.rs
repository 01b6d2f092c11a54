//! The decisions behind the `logbook` commands: validating what a user asks
//! to record, choosing which decision a supersession replaces, and checking
//! a new entry against the existing log.
use vstd::prelude::*;

use crate::error::Error;
use crate::parse::{
    entries_view, is_field_line, is_heading, opt_view, ref_of, strings_view, title_separator, Entry,
    EntryView,
};
use crate::text::{
    chars_eq, chars_of, contains_char, has_char, has_prefix, lines, lines_of, lowercase, owned,
    string_of, to_lowercase, trim, trim_chars, views,
};
use crate::store::opt_str_view;
use crate::{calendar_date, is_valid_date};

verus! {

/// The message for a title that is blank.
pub open spec fn empty_title_message() -> Seq<char> {
    "title cannot be empty"@
}

/// The message for a title that spans lines.
pub open spec fn multiline_title_message() -> Seq<char> {
    "title must fit on one line"@
}

/// A trimmed title, refused when blank or when it holds a line break.
pub fn validated_title(value: String) -> (r: Result<String, Error>)
    ensures
        match r {
            Ok(t) => t@ == trim(value@) && t@.len() > 0 && !has_char(t@, '\n') && !has_char(
                t@,
                '\r',
            ),
            Err(Error::InvalidEntry(m)) => (trim(value@).len() == 0 && m@ == empty_title_message())
                || (trim(value@).len() > 0 && (has_char(trim(value@), '\n') || has_char(
                trim(value@),
                '\r',
            )) && m@ == multiline_title_message()),
            Err(_) => false,
        },
{
    let c = chars_of(value.as_str());
    let t = trim_chars(c.as_slice());
    if t.len() == 0 {
        return Err(Error::InvalidEntry(owned("title cannot be empty")));
    }
    if contains_char(t.as_slice(), '\n') || contains_char(t.as_slice(), '\r') {
        return Err(Error::InvalidEntry(owned("title must fit on one line")));
    }
    Ok(string_of(t.as_slice()))
}

/// Refuse a date argument that is not a real `YYYY-MM-DD` calendar date.
pub fn validate_date_arg(flag: &str, value: &str) -> (r: Result<(), Error>)
    ensures
        match r {
            Ok(()) => calendar_date(value@),
            Err(Error::BadDate { flag: f, value: v }) => !calendar_date(value@) && f@ == flag@
                && v@ == value@,
            Err(_) => false,
        },
{
    if !is_valid_date(value) {
        return Err(Error::BadDate { flag: owned(flag), value: owned(value) });
    }
    Ok(())
}

/// The date for a new entry (the one given, or today's, which the caller
/// reads from the clock), refused unless it is a real calendar date.
pub fn validated_new_date(value: String) -> (r: Result<String, Error>)
    ensures
        match r {
            Ok(d) => d@ == value@ && calendar_date(value@),
            Err(Error::BadDate { flag: f, value: w }) => !calendar_date(value@) && f@ == "date"@
                && w@ == value@,
            Err(_) => false,
        },
{
    match validate_date_arg("date", value.as_str()) {
        Ok(()) => Ok(value),
        Err(e) => Err(e),
    }
}

/// The message for a tag that is blank.
pub open spec fn empty_tag_message() -> Seq<char> {
    "tags cannot be empty"@
}

/// The message for a tag holding a comma or a line break.
pub open spec fn bad_tag_message() -> Seq<char> {
    "tags cannot contain commas or newlines"@
}

/// What is wrong with a trimmed tag, if anything.
pub open spec fn tag_problem(t: Seq<char>) -> Option<Seq<char>> {
    if t.len() == 0 {
        Some(empty_tag_message())
    } else if has_char(t, ',') || has_char(t, '\n') || has_char(t, '\r') {
        Some(bad_tag_message())
    } else {
        None
    }
}

/// Whether some tag in `ts` equals `t` ignoring case.
pub open spec fn has_folded(ts: Seq<Seq<char>>, t: Seq<char>) -> bool {
    exists|j: int| 0 <= j < ts.len() && lowercase(#[trigger] ts[j]) == lowercase(t)
}

/// The tags of a new entry: each trimmed, the first problem refused, and a
/// tag dropped when an earlier one equals it ignoring case.
pub open spec fn normalized_tags_spec(tags: Seq<Seq<char>>) -> Result<Seq<Seq<char>>, Seq<char>>
    decreases tags.len(),
{
    if tags.len() == 0 {
        Ok(seq![])
    } else {
        match normalized_tags_spec(tags.drop_last()) {
            Err(m) => Err(m),
            Ok(prev) => {
                let t = trim(tags.last());
                match tag_problem(t) {
                    Some(m) => Err(m),
                    None => if has_folded(prev, t) {
                        Ok(prev)
                    } else {
                        Ok(prev.push(t))
                    },
                }
            },
        }
    }
}

/// Once a prefix of the tags is refused, the whole list is refused with the same message.
proof fn lemma_tags_err_extends(tags: Seq<Seq<char>>, k: int)
    requires
        0 <= k <= tags.len(),
        normalized_tags_spec(tags.take(k)) is Err,
    ensures
        normalized_tags_spec(tags) == normalized_tags_spec(tags.take(k)),
    decreases tags.len() - k,
{
    if k < tags.len() {
        let longer = tags.take(k + 1);
        assert(longer.drop_last() =~= tags.take(k));
        lemma_tags_err_extends(tags, k + 1);
    } else {
        assert(tags.take(k) =~= tags);
    }
}

/// Trim, check and case-fold-deduplicate the tags of a new entry.
pub fn normalized_tags(tags: Vec<String>) -> (r: Result<Vec<String>, Error>)
    ensures
        match r {
            Ok(v) => normalized_tags_spec(strings_view(tags@)) == Ok::<Seq<Seq<char>>, Seq<char>>(
                strings_view(v@),
            ),
            Err(Error::InvalidEntry(m)) => normalized_tags_spec(strings_view(tags@)) == Err::<
                Seq<Seq<char>>,
                Seq<char>,
            >(m@),
            Err(_) => false,
        },
{
    let ghost tv = strings_view(tags@);
    let mut out: Vec<String> = Vec::new();
    let mut folded: Vec<Vec<char>> = Vec::new();
    let mut i: usize = 0;
    assert(tv.take(0) =~= Seq::<Seq<char>>::empty());
    assert(strings_view(out@) =~= Seq::<Seq<char>>::empty());
    while i < tags.len()
        invariant
            i <= tags@.len(),
            tv == strings_view(tags@),
            normalized_tags_spec(tv.take(i as int)) == Ok::<Seq<Seq<char>>, Seq<char>>(
                strings_view(out@),
            ),
            folded@.len() == out@.len(),
            forall|j: int| 0 <= j < out@.len() ==> (#[trigger] folded@[j])@ == lowercase(out@[j]@),
        decreases tags@.len() - i,
    {
        let c = chars_of(tags[i].as_str());
        let t = trim_chars(c.as_slice());
        assert(tv.take(i as int + 1).drop_last() =~= tv.take(i as int));
        assert(tv.take(i as int + 1).last() == tags@[i as int]@);
        if t.len() == 0 {
            proof {
                lemma_tags_err_extends(tv, i as int + 1);
            }
            return Err(Error::InvalidEntry(owned("tags cannot be empty")));
        }
        if contains_char(t.as_slice(), ',') || contains_char(t.as_slice(), '\n') || contains_char(
            t.as_slice(),
            '\r',
        ) {
            proof {
                lemma_tags_err_extends(tv, i as int + 1);
            }
            return Err(Error::InvalidEntry(owned("tags cannot contain commas or newlines")));
        }
        let ts = string_of(t.as_slice());
        let low = chars_of(to_lowercase(ts.as_str()).as_str());
        let mut seen = false;
        let mut j: usize = 0;
        while j < folded.len()
            invariant
                j <= folded@.len(),
                folded@.len() == out@.len(),
                forall|k: int| 0 <= k < out@.len() ==> (#[trigger] folded@[k])@ == lowercase(out@[k]@),
                low@ == lowercase(t@),
                seen == exists|k: int| 0 <= k < j && lowercase(#[trigger] out@[k]@) == lowercase(t@),
            decreases folded@.len() - j,
        {
            if chars_eq(folded[j].as_slice(), low.as_slice()) {
                seen = true;
            }
            j = j + 1;
        }
        assert(seen == has_folded(strings_view(out@), t@)) by {
            if seen {
                let k = choose|k: int| 0 <= k < out@.len() && lowercase(#[trigger] out@[k]@) == lowercase(t@);
                assert(strings_view(out@)[k] == out@[k]@);
            }
            if has_folded(strings_view(out@), t@) {
                let k = choose|k: int| 0 <= k < strings_view(out@).len() && lowercase(#[trigger] strings_view(out@)[k]) == lowercase(t@);
                assert(strings_view(out@)[k] == out@[k]@);
            }
        }
        if !seen {
            let ghost before = strings_view(out@);
            out.push(ts);
            folded.push(low);
            assert(strings_view(out@) =~= before.push(t@));
        }
        i = i + 1;
    }
    assert(tv.take(tags@.len() as int) =~= tv);
    Ok(out)
}

/// The `date — title` reference a new entry would have.
pub open spec fn new_reference(date: Seq<char>, title: Seq<char>) -> Seq<char> {
    date + title_separator() + title
}

/// Whether some entry already has reference `r`.
pub open spec fn reference_taken(es: Seq<EntryView>, r: Seq<char>) -> bool {
    exists|i: int| 0 <= i < es.len() && ref_of(#[trigger] es[i]) == Some(r)
}

/// Refuse a new decision whose `date — title` reference already exists.
pub fn reject_duplicate_reference(entries: &[Entry], date: &str, title: &str) -> (r: Result<
    (),
    Error,
>)
    ensures
        match r {
            Ok(()) => !reference_taken(entries_view(entries@), new_reference(date@, title@)),
            Err(Error::DuplicateDecision(x)) => reference_taken(
                entries_view(entries@),
                new_reference(date@, title@),
            ) && x@ == new_reference(date@, title@),
            Err(_) => false,
        },
{
    let mut reference = String::new();
    reference.push_str(date);
    reference.push_str(" — ");
    reference.push_str(title);
    let rc = chars_of(reference.as_str());
    let mut i: usize = 0;
    while i < entries.len()
        invariant
            i <= entries@.len(),
            rc@ == reference@,
            reference@ == new_reference(date@, title@),
            forall|j: int| 0 <= j < i ==> ref_of(#[trigger] entries_view(entries@)[j]) != Some(
                reference@,
            ),
        decreases entries@.len() - i,
    {
        assert(entries_view(entries@)[i as int] == entries@[i as int]@);
        match entries[i].reference() {
            Some(x) => {
                let xc = chars_of(x.as_str());
                if chars_eq(xc.as_slice(), rc.as_slice()) {
                    return Err(Error::DuplicateDecision(reference));
                }
            },
            None => {},
        }
        i = i + 1;
    }
    Ok(())
}


/// A refused field value is answered with a message that names the problem
/// ("reserved syntax") and its fix ("indent that line").
pub proof fn lemma_refusal_names_the_fix(field: Seq<char>)
    ensures
        crate::text::contains(reserved_message(field), "reserved syntax"@),
        crate::text::contains(reserved_message(field), "indent that line"@),
{
    let tail = " has a line with reserved syntax (an entry heading or a field label); indent that line to keep it as text"@;
    reveal_strlit(" has a line with reserved syntax (an entry heading or a field label); indent that line to keep it as text");
    reveal_strlit("reserved syntax");
    reveal_strlit("indent that line");
    let m = reserved_message(field);
    let n = field.len() as int;
    assert(m.subrange(n + 17, n + 32) =~= "reserved syntax"@);
    assert(m.subrange(n + 70, n + 86) =~= "indent that line"@);
    assert(crate::text::matches_at(m, "reserved syntax"@, n + 17));
    assert(crate::text::matches_at(m, "indent that line"@, n + 70));
    crate::text::lemma_find_from_facts(m, "reserved syntax"@, 0);
    crate::text::lemma_find_from_facts(m, "indent that line"@, 0);
}

/// `s` with each `\r\n` turned into `\n`.
pub open spec fn normalize_crlf(s: Seq<char>) -> Seq<char>
    decreases s.len(),
{
    if s.len() == 0 {
        seq![]
    } else if s.len() >= 2 && s[0] == '\r' && s[1] == '\n' {
        seq!['\n'] + normalize_crlf(s.subrange(2, s.len() as int))
    } else {
        seq![s[0]] + normalize_crlf(s.subrange(1, s.len() as int))
    }
}

/// A line that the parser would read as the start of an entry or a field.
pub open spec fn structural_line(l: Seq<char>) -> bool {
    is_heading(l) || is_field_line(l)
}

/// A field value that stays one field when rendered: no line after its
/// first is a heading or a field label.
pub open spec fn body_ok(b: Seq<char>) -> bool {
    forall|i: int| 1 <= i < lines(b).len() ==> !structural_line(#[trigger] lines(b)[i])
}

/// The message for a field value holding a line the parser would take as
/// structure.
pub open spec fn reserved_message(field: Seq<char>) -> Seq<char> {
    field
        + " has a line with reserved syntax (an entry heading or a field label); indent that line to keep it as text"@
}

/// `s` with each `\r\n` turned into `\n`.
fn normalized_line_endings(s: &[char]) -> (r: Vec<char>)
    ensures
        r@ == normalize_crlf(s@),
{
    let mut out: Vec<char> = Vec::new();
    let mut i: usize = 0;
    assert(s@.subrange(0, s@.len() as int) =~= s@);
    while i < s.len()
        invariant
            i <= s@.len(),
            normalize_crlf(s@) == out@ + normalize_crlf(s@.subrange(i as int, s@.len() as int)),
        decreases s@.len() - i,
    {
        let ghost rest = s@.subrange(i as int, s@.len() as int);
        if i + 1 < s.len() && s[i] == '\r' && s[i + 1] == '\n' {
            assert(rest.subrange(2, rest.len() as int) =~= s@.subrange(i + 2, s@.len() as int));
            out.push('\n');
            i = i + 2;
        } else {
            assert(rest.subrange(1, rest.len() as int) =~= s@.subrange(i + 1, s@.len() as int));
            out.push(s[i]);
            i = i + 1;
        }
    }
    assert(s@.subrange(i as int, s@.len() as int) =~= Seq::<char>::empty());
    assert(out@ + Seq::<char>::empty() =~= out@);
    out
}

/// A multi-line field value with `\r\n` normalised to `\n`, refused when a
/// line after its first would be read as an entry heading or a field label.
pub fn validated_body(field: &str, value: &str) -> (r: Result<String, Error>)
    ensures
        match r {
            Ok(v) => v@ == normalize_crlf(value@) && body_ok(v@),
            Err(Error::InvalidEntry(m)) => !body_ok(normalize_crlf(value@)) && m@
                == reserved_message(field@),
            Err(_) => false,
        },
{
    let labels = crate::parse::Labels::new();
    let c = chars_of(value);
    let n = normalized_line_endings(c.as_slice());
    let ls = lines_of(n.as_slice());
    let mut i: usize = 1;
    while i < ls.len()
        invariant
            labels.wf(),
            n@ == normalize_crlf(value@),
            views(ls@) == lines(n@),
            1 <= i,
            forall|j: int| 1 <= j < i && j < ls@.len() ==> !structural_line(#[trigger] lines(n@)[j]),
        decreases ls@.len() - i,
    {
        assert(views(ls@)[i as int] == ls@[i as int]@);
        if has_prefix(ls[i].as_slice(), labels.heading.as_slice()) || crate::parse::field_line(
            ls[i].as_slice(),
            &labels,
        ) {
            assert(n@ == normalize_crlf(value@));
            assert((i as int) < lines(n@).len());
            assert(structural_line(lines(n@)[i as int]));
            assert(!body_ok(normalize_crlf(value@)));
            let mut m = owned(field);
            m.push_str(
                " has a line with reserved syntax (an entry heading or a field label); indent that line to keep it as text",
            );
            return Err(Error::InvalidEntry(m));
        }
        i = i + 1;
    }
    Ok(string_of(n.as_slice()))
}

/// The message of the flag a decision reason comes from.
pub open spec fn why_flag() -> Seq<char> {
    "--why"@
}

/// A decision reason as given on the command line, on stdin or in the
/// editor: trimmed, refused when empty, then checked as [`validated_body`]
/// checks it.
pub fn finish_why(value: String) -> (r: Result<String, Error>)
    ensures
        match r {
            Ok(v) => trim(value@).len() > 0 && v@ == normalize_crlf(trim(value@)) && body_ok(v@),
            Err(Error::EmptyEntry) => trim(value@).len() == 0,
            Err(Error::InvalidEntry(m)) => trim(value@).len() > 0 && !body_ok(
                normalize_crlf(trim(value@)),
            ) && m@ == reserved_message(why_flag()),
            Err(_) => false,
        },
{
    let c = chars_of(value.as_str());
    let t = trim_chars(c.as_slice());
    if t.len() == 0 {
        return Err(Error::EmptyEntry);
    }
    let ts = string_of(t.as_slice());
    validated_body("--why", ts.as_str())
}

/// The indices of the first `n` entries dated `d`, ascending.
pub open spec fn dated_indices(es: Seq<EntryView>, d: Seq<char>, n: int) -> Seq<int>
    decreases n,
{
    if n <= 0 {
        seq![]
    } else if es[n - 1].date == Some(d) {
        dated_indices(es, d, n - 1).push(n - 1)
    } else {
        dated_indices(es, d, n - 1)
    }
}

/// The indices of the first `n` entries dated `d` and titled `t`, ascending.
pub open spec fn titled_indices(es: Seq<EntryView>, d: Seq<char>, t: Seq<char>, n: int) -> Seq<
    int,
>
    decreases n,
{
    if n <= 0 {
        seq![]
    } else if es[n - 1].date == Some(d) && es[n - 1].title == Some(t) {
        titled_indices(es, d, t, n - 1).push(n - 1)
    } else {
        titled_indices(es, d, t, n - 1)
    }
}

/// Which entry a supersession of date `d` (and title `t`, when given)
/// replaces: `Ok(index)`, or `Err(0)` when no entry has the date, `Err(1)`
/// when none on it has the title, `Err(2)` when the choice is ambiguous.
pub open spec fn supersede_pick(es: Seq<EntryView>, d: Seq<char>, t: Option<Seq<char>>) -> Result<
    int,
    int,
> {
    let dated = dated_indices(es, d, es.len() as int);
    if dated.len() == 0 {
        Err(0)
    } else {
        match t {
            Some(w) => {
                let m = titled_indices(es, d, w, es.len() as int);
                if m.len() == 1 {
                    Ok(m[0])
                } else if m.len() == 0 {
                    Err(1)
                } else {
                    Err(2)
                }
            },
            None => if dated.len() == 1 {
                Ok(dated[0])
            } else {
                Err(2)
            },
        }
    }
}

/// The reference a superseding entry records: `date — title` when the old
/// entry has a title, its date otherwise.
pub open spec fn target_reference(es: Seq<EntryView>, d: Seq<char>, i: int) -> Seq<char> {
    match es[i].title {
        Some(t) => d + title_separator() + t,
        None => d,
    }
}

/// Whether an optional string holds exactly `s`.
fn opt_is(o: &Option<String>, s: &[char]) -> (r: bool)
    ensures
        r == (opt_view(*o) == Some(s@)),
{
    match o {
        Some(x) => {
            let xc = chars_of(x.as_str());
            chars_eq(xc.as_slice(), s)
        },
        None => false,
    }
}

/// Indices of the entries dated `d`, and of those also titled `t`.
pub(crate) fn dated_and_titled(entries: &[Entry], d: &[char], t: &[char]) -> (r: (Vec<usize>, Vec<usize>))
    ensures
        crate::parse::ints(r.0@) == dated_indices(entries_view(entries@), d@, entries@.len() as int),
        crate::parse::ints(r.1@) == titled_indices(
            entries_view(entries@),
            d@,
            t@,
            entries@.len() as int,
        ),
{
    let ghost es = entries_view(entries@);
    let mut dated: Vec<usize> = Vec::new();
    let mut titled: Vec<usize> = Vec::new();
    let mut i: usize = 0;
    while i < entries.len()
        invariant
            i <= entries@.len(),
            es == entries_view(entries@),
            crate::parse::ints(dated@) == dated_indices(es, d@, i as int),
            crate::parse::ints(titled@) == titled_indices(es, d@, t@, i as int),
        decreases entries@.len() - i,
    {
        assert(es[i as int] == entries@[i as int]@);
        let ghost d0 = crate::parse::ints(dated@);
        let ghost t0 = crate::parse::ints(titled@);
        if opt_is(&entries[i].date, d) {
            dated.push(i);
            assert(crate::parse::ints(dated@) =~= d0.push(i as int));
            if opt_is(&entries[i].title, t) {
                titled.push(i);
                assert(crate::parse::ints(titled@) =~= t0.push(i as int));
            }
        }
        i = i + 1;
    }
    (dated, titled)
}

/// Whether `r` is what superseding the decision dated `d` (and titled `t`,
/// when given) in log `es` yields: the reference of the one active target,
/// or the refusal that fits.
pub open spec fn supersede_outcome(
    es: Seq<EntryView>,
    d: Seq<char>,
    t: Option<Seq<char>>,
    r: Result<String, Error>,
) -> bool {
    match r {
        Ok(x) => supersede_pick(es, d, t) matches Ok(i) && x@ == target_reference(es, d, i)
            && es[i].superseded_by.len() == 0,
        Err(Error::SupersedeTargetMissing(v)) => supersede_pick(es, d, t) == Err::<int, int>(0)
            && v@ == d,
        Err(Error::SupersedeTitleMissing { date, title }) => supersede_pick(es, d, t) == Err::<
            int,
            int,
        >(1) && date@ == d && t == Some(title@),
        Err(Error::SupersedeTargetAmbiguous(v)) => supersede_pick(es, d, t) == Err::<int, int>(2)
            && v@ == d,
        Err(Error::SupersedeTargetInactive(x)) => supersede_pick(es, d, t) matches Ok(i)
            && es[i].superseded_by.len() > 0 && x@ == target_reference(es, d, i),
        Err(_) => false,
    }
}

/// Choose the decision that a supersession of `old_date` (and `old_title`,
/// when given) replaces, and return the reference the new entry records.
/// The target must exist, be unambiguous and not be superseded already.
pub fn supersede_target(entries: &[Entry], old_date: &str, old_title: Option<&str>) -> (r: Result<
    String,
    Error,
>)
    ensures
        supersede_outcome(entries_view(entries@), old_date@, opt_str_view(old_title), r),
{
    let ghost es = entries_view(entries@);
    let d = chars_of(old_date);
    let w = match old_title {
        Some(w) => chars_of(w),
        None => Vec::new(),
    };
    let (dated, titled) = dated_and_titled(entries, d.as_slice(), w.as_slice());
    if dated.len() == 0 {
        return Err(Error::SupersedeTargetMissing(owned(old_date)));
    }
    let target = match old_title {
        Some(wanted) => {
            if titled.len() == 1 {
                assert(crate::parse::ints(titled@)[0] == titled@[0] as int);
                titled[0]
            } else if titled.len() == 0 {
                return Err(Error::SupersedeTitleMissing { date: owned(old_date), title: owned(wanted) });
            } else {
                return Err(Error::SupersedeTargetAmbiguous(owned(old_date)));
            }
        },
        None => {
            if dated.len() == 1 {
                assert(crate::parse::ints(dated@)[0] == dated@[0] as int);
                dated[0]
            } else {
                return Err(Error::SupersedeTargetAmbiguous(owned(old_date)));
            }
        },
    };
    proof {
        lemma_indices_in_range(es, old_date@, w@);
    }
    assert(target < entries@.len());
    assert(es[target as int] == entries@[target as int]@);
    let e = &entries[target];
    let reference = match &e.title {
        Some(t) => {
            let mut x = owned(old_date);
            x.push_str(" — ");
            x.push_str(t.as_str());
            x
        },
        None => owned(old_date),
    };
    if !e.is_active() {
        return Err(Error::SupersedeTargetInactive(reference));
    }
    Ok(reference)
}

/// The chosen indices are entry indices.
pub proof fn lemma_indices_in_range(es: Seq<EntryView>, d: Seq<char>, t: Seq<char>)
    ensures
        forall|k: int|
            0 <= k < dated_indices(es, d, es.len() as int).len() ==> 0 <= #[trigger] dated_indices(
                es,
                d,
                es.len() as int,
            )[k] < es.len(),
        forall|k: int|
            0 <= k < titled_indices(es, d, t, es.len() as int).len() ==> 0 <= #[trigger] titled_indices(
                es,
                d,
                t,
                es.len() as int,
            )[k] < es.len(),
{
    lemma_dated_bounds(es, d, es.len() as int);
    lemma_titled_bounds(es, d, t, es.len() as int);
}

proof fn lemma_dated_bounds(es: Seq<EntryView>, d: Seq<char>, n: int)
    requires
        0 <= n,
    ensures
        forall|k: int|
            0 <= k < dated_indices(es, d, n).len() ==> 0 <= #[trigger] dated_indices(es, d, n)[k] < n,
    decreases n,
{
    if n > 0 {
        lemma_dated_bounds(es, d, n - 1);
        let prev = dated_indices(es, d, n - 1);
        assert forall|k: int| 0 <= k < dated_indices(es, d, n).len() implies 0
            <= #[trigger] dated_indices(es, d, n)[k] < n by {
            if k < prev.len() {
                assert(dated_indices(es, d, n)[k] == prev[k]);
            }
        }
    }
}

proof fn lemma_titled_bounds(es: Seq<EntryView>, d: Seq<char>, t: Seq<char>, n: int)
    requires
        0 <= n,
    ensures
        forall|k: int|
            0 <= k < titled_indices(es, d, t, n).len() ==> 0 <= #[trigger] titled_indices(
                es,
                d,
                t,
                n,
            )[k] < n,
    decreases n,
{
    if n > 0 {
        lemma_titled_bounds(es, d, t, n - 1);
        let prev = titled_indices(es, d, t, n - 1);
        assert forall|k: int| 0 <= k < titled_indices(es, d, t, n).len() implies 0
            <= #[trigger] titled_indices(es, d, t, n)[k] < n by {
            if k < prev.len() {
                assert(titled_indices(es, d, t, n)[k] == prev[k]);
            }
        }
    }
}

} // verus!

verus! {

/// Check a new decision against the log as it stands when the write lock is
/// held. For a supersession of `old` (a date and an optional title), the
/// replaced decision must still be its one active target, which is checked
/// first, so that a supersession that lost a race is refused as superseding
/// a retired decision; then the new `date — title` reference must be new.
pub fn recheck_new_entry(
    existing: &str,
    date: &str,
    title: &str,
    old: Option<(&str, Option<&str>)>,
) -> (r: Result<(), Error>)
    ensures
        ({
            let es = crate::parse::parse_spec(existing@);
            let taken = reference_taken(es, new_reference(date@, title@));
            let target_ok = old matches Some((d, t)) ==> exists|x: String|
                supersede_outcome(es, d@, opt_str_view(t), Ok::<String, Error>(x));
            match r {
                Ok(()) => target_ok && !taken,
                Err(Error::DuplicateDecision(x)) => target_ok && taken && x@ == new_reference(
                    date@,
                    title@,
                ),
                Err(e) => old matches Some((d, t)) && supersede_outcome(
                    es,
                    d@,
                    opt_str_view(t),
                    Err::<String, Error>(e),
                ),
            }
        }),
{
    let entries = crate::parse::parse_entries(existing);
    match old {
        None => {},
        Some((d, t)) => match supersede_target(entries.as_slice(), d, t) {
            Ok(x) => {
                assert(supersede_outcome(entries_view(entries@), d@, opt_str_view(t), Ok::<String, Error>(x)));
            },
            Err(e) => {
                return Err(e);
            },
        },
    }
    reject_duplicate_reference(entries.as_slice(), date, title)
}

} // verus!
