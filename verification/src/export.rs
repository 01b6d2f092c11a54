//! Stable JSON export for parsed entries and check reports.
use vstd::prelude::*;

use crate::parse::{entries_view, strings_view, Entry, EntryView};
use crate::color::esc;
use crate::text::{
    decimal, decimal_chars, digit_char, has_char, join, lemma_has_char_concat, string_of,
};
use crate::validate::{issues_view, ValidationIssue};

verus! {

/// The lowercase hexadecimal digit for `d` in 0..=15.
pub open spec fn hex_char(d: int) -> char {
    if d < 10 {
        digit_char(d)
    } else {
        ((d - 10 + 97) as u8) as char
    }
}

/// `v` as four lowercase hexadecimal digits (`{:04x}` for `v < 0x10000`).
pub open spec fn hex4(v: int) -> Seq<char> {
    seq![hex_char((v / 4096) % 16), hex_char((v / 256) % 16), hex_char((v / 16) % 16), hex_char(v % 16)]
}

/// The JSON string-literal form of one character.
pub open spec fn json_escape(c: char) -> Seq<char> {
    if c == '"' {
        seq!['\\', '"']
    } else if c == '\\' {
        seq!['\\', '\\']
    } else if c == '\n' {
        seq!['\\', 'n']
    } else if c == '\r' {
        seq!['\\', 'r']
    } else if c == '\t' {
        seq!['\\', 't']
    } else if c == '\u{08}' {
        seq!['\\', 'b']
    } else if c == '\u{0C}' {
        seq!['\\', 'f']
    } else if (c as int) < 0x20 {
        seq!['\\', 'u'] + hex4(c as int)
    } else {
        seq![c]
    }
}

/// The escaped characters of `s`, without quotes.
pub open spec fn json_body(s: Seq<char>) -> Seq<char>
    decreases s.len(),
{
    if s.len() == 0 {
        seq![]
    } else {
        json_body(s.drop_last()) + json_escape(s.last())
    }
}

/// `s` as a JSON string literal.
pub open spec fn json_str(s: Seq<char>) -> Seq<char> {
    seq!['"'] + json_body(s) + seq!['"']
}

/// A JSON string literal, or `null` when absent.
pub open spec fn json_opt(o: Option<Seq<char>>) -> Seq<char> {
    match o {
        Some(s) => json_str(s),
        None => "null"@,
    }
}

/// `true` or `false`.
pub open spec fn json_bool(b: bool) -> Seq<char> {
    if b {
        "true"@
    } else {
        "false"@
    }
}

/// Each item as an indented JSON string literal.
pub open spec fn indented_items(items: Seq<Seq<char>>) -> Seq<Seq<char>> {
    Seq::new(items.len(), |i: int| "      "@ + json_str(items[i]))
}

/// A pretty JSON array of strings as it appears inside an entry object.
pub open spec fn json_array(items: Seq<Seq<char>>) -> Seq<char> {
    if items.len() == 0 {
        "[]"@
    } else {
        "[\n"@ + join(indented_items(items), ",\n"@) + "\n    ]"@
    }
}

/// Each item as a JSON string literal.
pub open spec fn quoted_items(items: Seq<Seq<char>>) -> Seq<Seq<char>> {
    Seq::new(items.len(), |i: int| json_str(items[i]))
}

/// A compact JSON array of strings.
pub open spec fn json_compact_array(items: Seq<Seq<char>>) -> Seq<char> {
    "["@ + join(quoted_items(items), ","@) + "]"@
}

/// `name`, a JSON value and `",\n"`.
pub open spec fn field_line(name: Seq<char>, value: Seq<char>) -> Seq<char> {
    name + value + ",\n"@
}

/// The pretty JSON object for one entry.
pub open spec fn json_entry(e: EntryView) -> Seq<char> {
    "  {\n"@ + field_line("    \"date\": "@, json_opt(e.date)) + field_line(
        "    \"title\": "@,
        json_opt(e.title),
    ) + field_line("    \"why\": "@, json_opt(e.why)) + field_line(
        "    \"rejected\": "@,
        json_opt(e.rejected),
    ) + field_line("    \"risk\": "@, json_opt(e.risk)) + field_line(
        "    \"supersedes\": "@,
        json_opt(e.supersedes),
    ) + field_line("    \"tags\": "@, json_array(e.tags)) + field_line(
        "    \"active\": "@,
        json_bool(e.superseded_by.len() == 0),
    ) + "    \"superseded_by\": "@ + json_array(e.superseded_by) + "\n"@ + "  }"@
}

/// The pretty JSON array of entries in document order.
pub open spec fn json_entries(es: Seq<EntryView>) -> Seq<char> {
    if es.len() == 0 {
        "[]"@
    } else {
        "[\n"@ + join(Seq::new(es.len(), |i: int| json_entry(es[i])), ",\n"@) + "\n]"@
    }
}

/// `name` followed by a JSON value.
pub open spec fn member(name: Seq<char>, value: Seq<char>) -> Seq<char> {
    name + value
}

/// The compact one-line JSON object for one entry.
pub open spec fn json_line(e: EntryView) -> Seq<char> {
    member("{\"date\":"@, json_opt(e.date)) + member(",\"title\":"@, json_opt(e.title)) + member(
        ",\"why\":"@,
        json_opt(e.why),
    ) + member(",\"rejected\":"@, json_opt(e.rejected)) + member(",\"risk\":"@, json_opt(e.risk))
        + member(",\"supersedes\":"@, json_opt(e.supersedes)) + member(
        ",\"tags\":"@,
        json_compact_array(e.tags),
    ) + member(",\"active\":"@, json_bool(e.superseded_by.len() == 0)) + member(
        ",\"superseded_by\":"@,
        json_compact_array(e.superseded_by),
    ) + "}"@
}

/// One compact JSON object per entry, one per line.
pub open spec fn json_lines(es: Seq<EntryView>) -> Seq<char> {
    join(Seq::new(es.len(), |i: int| json_line(es[i])), "\n"@)
}

/// Append the JSON string-literal form of `c`.
fn push_escaped(out: &mut String, c: char)
    ensures
        final(out)@ == old(out)@ + json_escape(c),
{
    if c == '"' {
        out.push('\\');
        out.push('"');
    } else if c == '\\' {
        out.push('\\');
        out.push('\\');
    } else if c == '\n' {
        out.push('\\');
        out.push('n');
    } else if c == '\r' {
        out.push('\\');
        out.push('r');
    } else if c == '\t' {
        out.push('\\');
        out.push('t');
    } else if c == '\u{08}' {
        out.push('\\');
        out.push('b');
    } else if c == '\u{0C}' {
        out.push('\\');
        out.push('f');
    } else if (c as u32) < 0x20 {
        let v: u32 = c as u32;
        assert(v as int == c as int);
        out.push('\\');
        out.push('u');
        out.push(hex_digit(v / 4096 % 16));
        out.push(hex_digit(v / 256 % 16));
        out.push(hex_digit(v / 16 % 16));
        out.push(hex_digit(v % 16));
    } else {
        assert((c as u32) as int == c as int);
        out.push(c);
    }
    assert(final(out)@ =~= old(out)@ + json_escape(c));
}

/// Append `s` to `out` as a JSON string literal.
fn push_json_string(out: &mut String, s: &str)
    ensures
        final(out)@ == old(out)@ + json_str(s@),
{
    let chars = crate::text::chars_of(s);
    out.push('"');
    let ghost start = out@;
    let mut i: usize = 0;
    while i < chars.len()
        invariant
            i <= chars@.len(),
            chars@ == s@,
            out@ == start + json_body(chars@.take(i as int)),
        decreases chars@.len() - i,
    {
        let c = chars[i];
        let ghost prev = out@;
        assert(chars@.take(i as int + 1).drop_last() =~= chars@.take(i as int));
        assert(chars@.take(i as int + 1).last() == c);
        push_escaped(out, c);
        assert(out@ =~= prev + json_escape(c));
        i = i + 1;
    }
    assert(chars@.take(chars@.len() as int) =~= chars@);
    out.push('"');
    assert(final(out)@ =~= old(out)@ + json_str(s@));
}

/// The lowercase hexadecimal digit for `d`.
fn hex_digit(d: u32) -> (c: char)
    requires
        d < 16,
    ensures
        c == hex_char(d as int),
{
    if d < 10 {
        ((d as u8) + 48u8) as char
    } else {
        ((d as u8) - 10u8 + 97u8) as char
    }
}

/// Escape `value` as a JSON string literal.
pub fn json_string(value: &str) -> (r: String)
    ensures
        r@ == json_str(value@),
{
    let mut out = String::new();
    push_json_string(&mut out, value);
    out
}

/// Append a JSON string literal, or `null`.
fn push_json_opt(out: &mut String, value: &Option<String>)
    ensures
        final(out)@ == old(out)@ + json_opt(crate::parse::opt_view(*value)),
{
    match value {
        Some(s) => push_json_string(out, s.as_str()),
        None => out.push_str("null"),
    }
}

/// Append `true` or `false`.
fn push_json_bool(out: &mut String, b: bool)
    ensures
        final(out)@ == old(out)@ + json_bool(b),
{
    if b {
        out.push_str("true");
    } else {
        out.push_str("false");
    }
}

/// Append a pretty JSON array of strings.
fn push_json_array(out: &mut String, items: &Vec<String>)
    ensures
        final(out)@ == old(out)@ + json_array(strings_view(items@)),
{
    let ghost sv = strings_view(items@);
    if items.len() == 0 {
        out.push_str("[]");
        return;
    }
    out.push_str("[\n");
    let ghost start = out@;
    let mut i: usize = 0;
    while i < items.len()
        invariant
            i <= items@.len(),
            items@.len() > 0,
            sv == strings_view(items@),
            out@ == start + join(indented_items(sv).take(i as int), ",\n"@),
        decreases items@.len() - i,
    {
        let ghost prev = out@;
        if i > 0 {
            out.push_str(",\n");
        }
        out.push_str("      ");
        push_json_string(out, items[i].as_str());
        proof {
            let now = indented_items(sv).take(i as int + 1);
            assert(now.drop_last() =~= indented_items(sv).take(i as int));
            assert(now.last() == "      "@ + json_str(sv[i as int]));
            if i == 0 {
                assert(join(indented_items(sv).take(0), ",\n"@) == Seq::<char>::empty());
                assert(join(now, ",\n"@) == now[0]);
            }
        }
        i = i + 1;
        assert(out@ =~= start + join(indented_items(sv).take(i as int), ",\n"@));
    }
    assert(indented_items(sv).take(items@.len() as int) =~= indented_items(sv));
    out.push_str("\n    ]");
    assert(final(out)@ =~= old(out)@ + json_array(sv));
}

/// Append a compact JSON array of strings.
fn push_json_compact_array(out: &mut String, items: &Vec<String>)
    ensures
        final(out)@ == old(out)@ + json_compact_array(strings_view(items@)),
{
    let ghost sv = strings_view(items@);
    out.push_str("[");
    let ghost start = out@;
    let mut i: usize = 0;
    while i < items.len()
        invariant
            i <= items@.len(),
            sv == strings_view(items@),
            out@ == start + join(quoted_items(sv).take(i as int), ","@),
        decreases items@.len() - i,
    {
        if i > 0 {
            out.push_str(",");
        }
        push_json_string(out, items[i].as_str());
        proof {
            let now = quoted_items(sv).take(i as int + 1);
            assert(now.drop_last() =~= quoted_items(sv).take(i as int));
            assert(now.last() == json_str(sv[i as int]));
            if i == 0 {
                assert(join(quoted_items(sv).take(0), ","@) == Seq::<char>::empty());
                assert(join(now, ","@) == now[0]);
            }
        }
        i = i + 1;
        assert(out@ =~= start + join(quoted_items(sv).take(i as int), ","@));
    }
    assert(quoted_items(sv).take(items@.len() as int) =~= quoted_items(sv));
    out.push_str("]");
    assert(final(out)@ =~= old(out)@ + json_compact_array(sv));
}

/// Append the pretty JSON object for one entry.
fn push_json_entry(out: &mut String, e: &Entry)
    ensures
        final(out)@ == old(out)@ + json_entry(e@),
{
    let ghost v = e@;
    out.push_str("  {\n");
    push_opt_field(out, "    \"date\": ", &e.date);
    push_opt_field(out, "    \"title\": ", &e.title);
    push_opt_field(out, "    \"why\": ", &e.why);
    push_opt_field(out, "    \"rejected\": ", &e.rejected);
    push_opt_field(out, "    \"risk\": ", &e.risk);
    push_opt_field(out, "    \"supersedes\": ", &e.supersedes);
    let ghost s6 = out@;
    out.push_str("    \"tags\": ");
    push_json_array(out, &e.tags);
    out.push_str(",\n");
    assert(out@ =~= s6 + field_line("    \"tags\": "@, json_array(v.tags)));
    let ghost s7 = out@;
    out.push_str("    \"active\": ");
    push_json_bool(out, e.is_active());
    out.push_str(",\n");
    assert(out@ =~= s7 + field_line("    \"active\": "@, json_bool(v.superseded_by.len() == 0)));
    out.push_str("    \"superseded_by\": ");
    push_json_array(out, &e.superseded_by);
    out.push_str("\n");
    out.push_str("  }");
    assert(final(out)@ =~= old(out)@ + json_entry(v));
}

/// Append `name`, a JSON string literal or `null`, and `",\n"`.
fn push_opt_field(out: &mut String, name: &str, value: &Option<String>)
    ensures
        final(out)@ == old(out)@ + field_line(name@, json_opt(crate::parse::opt_view(*value))),
{
    out.push_str(name);
    push_json_opt(out, value);
    out.push_str(",\n");
    assert(final(out)@ =~= old(out)@ + field_line(name@, json_opt(crate::parse::opt_view(*value))));
}

/// Append `name` and a JSON string literal or `null`.
fn push_opt_member(out: &mut String, name: &str, value: &Option<String>)
    ensures
        final(out)@ == old(out)@ + member(name@, json_opt(crate::parse::opt_view(*value))),
{
    out.push_str(name);
    push_json_opt(out, value);
    assert(final(out)@ =~= old(out)@ + member(name@, json_opt(crate::parse::opt_view(*value))));
}

/// Append `name` and a compact JSON array of strings.
fn push_array_member(out: &mut String, name: &str, items: &Vec<String>)
    ensures
        final(out)@ == old(out)@ + member(name@, json_compact_array(strings_view(items@))),
{
    out.push_str(name);
    push_json_compact_array(out, items);
    assert(final(out)@ =~= old(out)@ + member(name@, json_compact_array(strings_view(items@))));
}

/// Render entries as a pretty-printed JSON array in document order.
pub fn entries_to_json(entries: &[Entry]) -> (r: String)
    ensures
        r@ == json_entries(entries_view(entries@)),
{
    let ghost es = entries_view(entries@);
    let ghost objs = Seq::new(es.len(), |i: int| json_entry(es[i]));
    let mut out = String::new();
    if entries.len() == 0 {
        out.push_str("[]");
        return out;
    }
    out.push_str("[\n");
    let ghost start = out@;
    let mut i: usize = 0;
    while i < entries.len()
        invariant
            i <= entries@.len(),
            entries@.len() > 0,
            es == entries_view(entries@),
            objs == Seq::new(es.len(), |i: int| json_entry(es[i])),
            out@ == start + join(objs.take(i as int), ",\n"@),
        decreases entries@.len() - i,
    {
        if i > 0 {
            out.push_str(",\n");
        }
        push_json_entry(&mut out, &entries[i]);
        proof {
            let now = objs.take(i as int + 1);
            assert(now.drop_last() =~= objs.take(i as int));
            assert(es[i as int] == entries@[i as int]@);
            assert(now.last() == json_entry(entries@[i as int]@));
            if i == 0 {
                assert(join(objs.take(0), ",\n"@) == Seq::<char>::empty());
                assert(join(now, ",\n"@) == now[0]);
            }
        }
        i = i + 1;
        assert(out@ =~= start + join(objs.take(i as int), ",\n"@));
    }
    assert(objs.take(entries@.len() as int) =~= objs);
    out.push_str("\n]");
    assert(out@ =~= json_entries(es));
    out
}

/// Append the compact JSON object for one entry.
fn push_json_line(out: &mut String, e: &Entry)
    ensures
        final(out)@ == old(out)@ + json_line(e@),
{
    let ghost v = e@;
    push_opt_member(out, "{\"date\":", &e.date);
    push_opt_member(out, ",\"title\":", &e.title);
    push_opt_member(out, ",\"why\":", &e.why);
    push_opt_member(out, ",\"rejected\":", &e.rejected);
    push_opt_member(out, ",\"risk\":", &e.risk);
    push_opt_member(out, ",\"supersedes\":", &e.supersedes);
    push_array_member(out, ",\"tags\":", &e.tags);
    let ghost s7 = out@;
    out.push_str(",\"active\":");
    push_json_bool(out, e.is_active());
    assert(out@ =~= s7 + member(",\"active\":"@, json_bool(v.superseded_by.len() == 0)));
    push_array_member(out, ",\"superseded_by\":", &e.superseded_by);
    out.push_str("}");
    assert(final(out)@ =~= old(out)@ + json_line(v));
}

/// Render one compact JSON object per line in document order.
pub fn entries_to_json_lines(entries: &[Entry]) -> (r: String)
    ensures
        r@ == json_lines(entries_view(entries@)),
{
    let ghost es = entries_view(entries@);
    let ghost objs = Seq::new(es.len(), |i: int| json_line(es[i]));
    let mut out = String::new();
    let mut i: usize = 0;
    while i < entries.len()
        invariant
            i <= entries@.len(),
            es == entries_view(entries@),
            objs == Seq::new(es.len(), |i: int| json_line(es[i])),
            out@ == join(objs.take(i as int), "\n"@),
        decreases entries@.len() - i,
    {
        if i > 0 {
            out.push_str("\n");
        }
        push_json_line(&mut out, &entries[i]);
        proof {
            let now = objs.take(i as int + 1);
            assert(now.drop_last() =~= objs.take(i as int));
            assert(es[i as int] == entries@[i as int]@);
            assert(now.last() == json_line(entries@[i as int]@));
            if i == 0 {
                assert(join(objs.take(0), "\n"@) == Seq::<char>::empty());
                assert(join(now, "\n"@) == now[0]);
            }
        }
        i = i + 1;
        assert(out@ =~= join(objs.take(i as int), "\n"@));
    }
    assert(objs.take(entries@.len() as int) =~= objs);
    out
}


/// How many of the first `n` entries have no successor.
pub open spec fn active_count(es: Seq<EntryView>, n: int) -> nat
    decreases n,
{
    if n <= 0 {
        0
    } else if es[n - 1].superseded_by.len() == 0 {
        active_count(es, n - 1) + 1
    } else {
        active_count(es, n - 1)
    }
}

/// One issue as a pretty JSON object inside the report's issue list.
pub open spec fn json_issue(i: (int, Seq<char>)) -> Seq<char> {
    "    {\n      \"entry\": "@ + decimal(i.0 as nat) + ",\n      \"message\": "@ + json_str(i.1)
        + "\n    }"@
}

/// The report's issue list.
pub open spec fn json_issues(issues: Seq<(int, Seq<char>)>) -> Seq<char> {
    if issues.len() == 0 {
        "[]"@
    } else {
        "[\n"@ + join(Seq::new(issues.len(), |i: int| json_issue(issues[i])), ",\n"@) + "\n  ]"@
    }
}

/// The pretty JSON check report: whether there are no issues, the number of
/// entries, how many are active and superseded, and every issue.
pub open spec fn json_report(es: Seq<EntryView>, issues: Seq<(int, Seq<char>)>) -> Seq<char> {
    let active = active_count(es, es.len() as int);
    "{\n  \"valid\": "@ + json_bool(issues.len() == 0) + ",\n  \"entries\": "@ + decimal(
        es.len(),
    ) + ",\n  \"active\": "@ + decimal(active) + ",\n  \"superseded\": "@ + decimal(
        (es.len() - active) as nat,
    ) + ",\n  \"issues\": "@ + json_issues(issues) + "\n}"@
}

/// The number of entries with no successor.
pub fn count_active(entries: &[Entry]) -> (r: usize)
    ensures
        r == active_count(entries_view(entries@), entries@.len() as int),
        r <= entries@.len(),
{
    let mut count: usize = 0;
    let mut i: usize = 0;
    while i < entries.len()
        invariant
            i <= entries@.len(),
            count <= i,
            count == active_count(entries_view(entries@), i as int),
        decreases entries@.len() - i,
    {
        assert(entries_view(entries@)[i as int] == entries@[i as int]@);
        if entries[i].is_active() {
            count = count + 1;
        }
        i = i + 1;
    }
    count
}

/// Append the decimal digits of `n`.
pub(crate) fn push_decimal(out: &mut String, n: usize)
    ensures
        final(out)@ == old(out)@ + decimal(n as nat),
{
    let d = decimal_chars(n);
    let s = string_of(d.as_slice());
    out.push_str(s.as_str());
}

/// Render a check report as pretty JSON: validity, decision-state counts and
/// every issue.
pub fn check_report_to_json(entries: &[Entry], issues: &[ValidationIssue]) -> (r: String)
    ensures
        r@ == json_report(entries_view(entries@), issues_view(issues@)),
{
    let ghost es = entries_view(entries@);
    let ghost iv = issues_view(issues@);
    let active = count_active(entries);
    let mut out = String::new();
    out.push_str("{\n  \"valid\": ");
    push_json_bool(&mut out, issues.len() == 0);
    out.push_str(",\n  \"entries\": ");
    push_decimal(&mut out, entries.len());
    out.push_str(",\n  \"active\": ");
    push_decimal(&mut out, active);
    out.push_str(",\n  \"superseded\": ");
    push_decimal(&mut out, entries.len() - active);
    out.push_str(",\n  \"issues\": ");
    let ghost head = out@;
    if issues.len() == 0 {
        out.push_str("[]");
    } else {
        let ghost objs = Seq::new(iv.len(), |i: int| json_issue(iv[i]));
        out.push_str("[\n");
        let ghost start = out@;
        let mut i: usize = 0;
        while i < issues.len()
            invariant
                i <= issues@.len(),
                issues@.len() > 0,
                iv == issues_view(issues@),
                objs == Seq::new(iv.len(), |i: int| json_issue(iv[i])),
                out@ == start + join(objs.take(i as int), ",\n"@),
            decreases issues@.len() - i,
        {
            let ghost prev = out@;
            if i > 0 {
                out.push_str(",\n");
            }
            let ghost mid = out@;
            out.push_str("    {\n      \"entry\": ");
            push_decimal(&mut out, issues[i].entry);
            out.push_str(",\n      \"message\": ");
            push_json_string(&mut out, issues[i].message.as_str());
            out.push_str("\n    }");
            assert(out@ =~= mid + json_issue(iv[i as int]));
            proof {
                let now = objs.take(i as int + 1);
                assert(now.drop_last() =~= objs.take(i as int));
                assert(now.last() == json_issue(iv[i as int]));
                if i == 0 {
                    assert(join(objs.take(0), ",\n"@) == Seq::<char>::empty());
                    assert(join(now, ",\n"@) == now[0]);
                }
            }
            i = i + 1;
            assert(out@ =~= start + join(objs.take(i as int), ",\n"@));
        }
        assert(objs.take(issues@.len() as int) =~= objs);
        out.push_str("\n  ]");
    }
    assert(out@ =~= head + json_issues(iv));
    out.push_str("\n}");
    assert(out@ =~= json_report(es, iv));
    out
}

} // verus!

verus! {

/// No literal of the JSON forms holds the terminal escape character.
proof fn lemma_json_literals_plain()
    ensures
        !has_char("null"@, esc()),
        !has_char("true"@, esc()),
        !has_char("false"@, esc()),
        !has_char("[]"@, esc()),
        !has_char("[\n"@, esc()),
        !has_char(",\n"@, esc()),
        !has_char("\n    ]"@, esc()),
        !has_char("      "@, esc()),
        !has_char("["@, esc()),
        !has_char(","@, esc()),
        !has_char("]"@, esc()),
        !has_char("  {\n"@, esc()),
        !has_char("    \"date\": "@, esc()),
        !has_char("    \"title\": "@, esc()),
        !has_char("    \"why\": "@, esc()),
        !has_char("    \"rejected\": "@, esc()),
        !has_char("    \"risk\": "@, esc()),
        !has_char("    \"supersedes\": "@, esc()),
        !has_char("    \"tags\": "@, esc()),
        !has_char("    \"active\": "@, esc()),
        !has_char("    \"superseded_by\": "@, esc()),
        !has_char("\n"@, esc()),
        !has_char("  }"@, esc()),
        !has_char("\n]"@, esc()),
        !has_char("{\"date\":"@, esc()),
        !has_char(",\"title\":"@, esc()),
        !has_char(",\"why\":"@, esc()),
        !has_char(",\"rejected\":"@, esc()),
        !has_char(",\"risk\":"@, esc()),
        !has_char(",\"supersedes\":"@, esc()),
        !has_char(",\"tags\":"@, esc()),
        !has_char(",\"active\":"@, esc()),
        !has_char(",\"superseded_by\":"@, esc()),
        !has_char("}"@, esc()),
        !has_char("    {\n      \"entry\": "@, esc()),
        !has_char(",\n      \"message\": "@, esc()),
        !has_char("\n    }"@, esc()),
        !has_char("\n  ]"@, esc()),
        !has_char("{\n  \"valid\": "@, esc()),
        !has_char(",\n  \"entries\": "@, esc()),
        !has_char(",\n  \"active\": "@, esc()),
        !has_char(",\n  \"superseded\": "@, esc()),
        !has_char(",\n  \"issues\": "@, esc()),
        !has_char("\n}"@, esc()),
{
    reveal_strlit("null");
    reveal_strlit("true");
    reveal_strlit("false");
    reveal_strlit("[]");
    reveal_strlit("[\n");
    reveal_strlit(",\n");
    reveal_strlit("\n    ]");
    reveal_strlit("      ");
    reveal_strlit("[");
    reveal_strlit(",");
    reveal_strlit("]");
    reveal_strlit("  {\n");
    reveal_strlit("    \"date\": ");
    reveal_strlit("    \"title\": ");
    reveal_strlit("    \"why\": ");
    reveal_strlit("    \"rejected\": ");
    reveal_strlit("    \"risk\": ");
    reveal_strlit("    \"supersedes\": ");
    reveal_strlit("    \"tags\": ");
    reveal_strlit("    \"active\": ");
    reveal_strlit("    \"superseded_by\": ");
    reveal_strlit("\n");
    reveal_strlit("  }");
    reveal_strlit("\n]");
    reveal_strlit("{\"date\":");
    reveal_strlit(",\"title\":");
    reveal_strlit(",\"why\":");
    reveal_strlit(",\"rejected\":");
    reveal_strlit(",\"risk\":");
    reveal_strlit(",\"supersedes\":");
    reveal_strlit(",\"tags\":");
    reveal_strlit(",\"active\":");
    reveal_strlit(",\"superseded_by\":");
    reveal_strlit("}");
    reveal_strlit("    {\n      \"entry\": ");
    reveal_strlit(",\n      \"message\": ");
    reveal_strlit("\n    }");
    reveal_strlit("\n  ]");
    reveal_strlit("{\n  \"valid\": ");
    reveal_strlit(",\n  \"entries\": ");
    reveal_strlit(",\n  \"active\": ");
    reveal_strlit(",\n  \"superseded\": ");
    reveal_strlit(",\n  \"issues\": ");
    reveal_strlit("\n}");
}

/// A hexadecimal digit is no escape character.
proof fn lemma_hex_plain(d: int)
    requires
        0 <= d < 16,
    ensures
        hex_char(d) != esc(),
{
    if d < 10 {
        assert(((d + 48) as u8) as int == d + 48);
    } else {
        assert(((d - 10 + 97) as u8) as int == d + 87);
    }
}

/// Two characters other than the escape character hold none.
proof fn lemma_pair_plain(a: char, b: char)
    requires
        a != esc(),
        b != esc(),
    ensures
        !has_char(seq![a, b], esc()),
{
    if has_char(seq![a, b], esc()) {
        let j = choose|j: int| 0 <= j < 2 && seq![a, b][j] == esc();
    }
}

/// One character other than the escape character holds none.
proof fn lemma_one_plain(a: char)
    requires
        a != esc(),
    ensures
        !has_char(seq![a], esc()),
{
    if has_char(seq![a], esc()) {
        let j = choose|j: int| 0 <= j < 1 && seq![a][j] == esc();
    }
}

/// The escaped form of a character holds no escape character.
proof fn lemma_escape_plain(c: char)
    ensures
        !has_char(json_escape(c), esc()),
{
    if c == '"' || c == '\\' || c == '\n' || c == '\r' || c == '\t' || c == '\u{08}' || c
        == '\u{0C}' {
        lemma_pair_plain('\\', '"');
        lemma_pair_plain('\\', '\\');
        lemma_pair_plain('\\', 'n');
        lemma_pair_plain('\\', 'r');
        lemma_pair_plain('\\', 't');
        lemma_pair_plain('\\', 'b');
        lemma_pair_plain('\\', 'f');
    } else if (c as int) < 0x20 {
        let v = c as int;
        lemma_hex_plain((v / 4096) % 16);
        lemma_hex_plain((v / 256) % 16);
        lemma_hex_plain((v / 16) % 16);
        lemma_hex_plain(v % 16);
        let s = seq!['\\', 'u'] + hex4(v);
        if has_char(s, esc()) {
            let j = choose|j: int| 0 <= j < s.len() && s[j] == esc();
        }
    } else {
        assert(c != esc());
        lemma_one_plain(c);
    }
}

/// Escaped text holds no escape character.
proof fn lemma_body_plain(s: Seq<char>)
    ensures
        !has_char(json_body(s), esc()),
    decreases s.len(),
{
    if s.len() > 0 {
        lemma_body_plain(s.drop_last());
        lemma_escape_plain(s.last());
        lemma_has_char_concat(json_body(s.drop_last()), json_escape(s.last()), esc());
    } else {
        assert(json_body(s) =~= Seq::<char>::empty());
    }
}

/// A JSON string literal holds no escape character.
proof fn lemma_str_plain(s: Seq<char>)
    ensures
        !has_char(json_str(s), esc()),
{
    lemma_body_plain(s);
    lemma_one_plain('"');
    lemma_has_char_concat(seq!['"'], json_body(s), esc());
    lemma_has_char_concat(seq!['"'] + json_body(s), seq!['"'], esc());
}

/// Decimal digits hold no escape character.
proof fn lemma_decimal_plain(n: nat)
    ensures
        !has_char(decimal(n), esc()),
    decreases n,
{
    if n < 10 {
        assert(((n + 48) as u8) as int == n + 48);
        lemma_one_plain(digit_char(n as int));
    } else {
        lemma_decimal_plain(n / 10);
        let d = (n % 10) as int;
        assert(((d + 48) as u8) as int == d + 48);
        lemma_one_plain(digit_char(d));
        lemma_has_char_concat(decimal(n / 10), seq![digit_char(d)], esc());
    }
}

/// Joined pieces hold the escape character only when a piece or the
/// separator does.
proof fn lemma_join_plain(ls: Seq<Seq<char>>, sep: Seq<char>)
    requires
        !has_char(sep, esc()),
        forall|i: int| 0 <= i < ls.len() ==> !has_char(#[trigger] ls[i], esc()),
    ensures
        !has_char(join(ls, sep), esc()),
    decreases ls.len(),
{
    if ls.len() > 1 {
        let dl = ls.drop_last();
        assert(forall|i: int| 0 <= i < dl.len() ==> dl[i] == ls[i]);
        lemma_join_plain(dl, sep);
        lemma_has_char_concat(join(dl, sep), sep, esc());
        lemma_has_char_concat(join(dl, sep) + sep, ls.last(), esc());
    } else if ls.len() == 0 {
        assert(!has_char(Seq::<char>::empty(), esc()));
    }
}

} // verus!

verus! {

/// Two pieces without the escape character make a whole without it.
proof fn lemma_cat_plain(a: Seq<char>, b: Seq<char>)
    requires
        !has_char(a, esc()),
        !has_char(b, esc()),
    ensures
        !has_char(a + b, esc()),
{
    lemma_has_char_concat(a, b, esc());
}

proof fn lemma_opt_plain(o: Option<Seq<char>>)
    ensures
        !has_char(json_opt(o), esc()),
{
    lemma_json_literals_plain();
    match o {
        Some(s) => lemma_str_plain(s),
        None => {},
    }
}

proof fn lemma_bool_plain(b: bool)
    ensures
        !has_char(json_bool(b), esc()),
{
    lemma_json_literals_plain();
}

proof fn lemma_array_plain(items: Seq<Seq<char>>)
    ensures
        !has_char(json_array(items), esc()),
        !has_char(json_compact_array(items), esc()),
{
    lemma_json_literals_plain();
    let ind = indented_items(items);
    assert forall|i: int| 0 <= i < ind.len() implies !has_char(#[trigger] ind[i], esc()) by {
        lemma_str_plain(items[i]);
        lemma_cat_plain("      "@, json_str(items[i]));
    }
    lemma_join_plain(ind, ",\n"@);
    if items.len() > 0 {
        lemma_cat_plain("[\n"@, join(ind, ",\n"@));
        lemma_cat_plain("[\n"@ + join(ind, ",\n"@), "\n    ]"@);
    }
    let q = quoted_items(items);
    assert forall|i: int| 0 <= i < q.len() implies !has_char(#[trigger] q[i], esc()) by {
        lemma_str_plain(items[i]);
    }
    lemma_join_plain(q, ","@);
    lemma_cat_plain("["@, join(q, ","@));
    lemma_cat_plain("["@ + join(q, ","@), "]"@);
}

proof fn lemma_field_line_plain(name: Seq<char>, value: Seq<char>)
    requires
        !has_char(name, esc()),
        !has_char(value, esc()),
    ensures
        !has_char(field_line(name, value), esc()),
        !has_char(member(name, value), esc()),
{
    lemma_json_literals_plain();
    lemma_cat_plain(name, value);
    lemma_cat_plain(name + value, ",\n"@);
}

proof fn lemma_entry_plain(e: EntryView)
    ensures
        !has_char(json_entry(e), esc()),
        !has_char(json_line(e), esc()),
{
    lemma_json_literals_plain();
    lemma_opt_plain(e.date);
    lemma_opt_plain(e.title);
    lemma_opt_plain(e.why);
    lemma_opt_plain(e.rejected);
    lemma_opt_plain(e.risk);
    lemma_opt_plain(e.supersedes);
    lemma_array_plain(e.tags);
    lemma_array_plain(e.superseded_by);
    lemma_bool_plain(e.superseded_by.len() == 0);
    lemma_field_line_plain("    \"date\": "@, json_opt(e.date));
    lemma_field_line_plain("    \"title\": "@, json_opt(e.title));
    lemma_field_line_plain("    \"why\": "@, json_opt(e.why));
    lemma_field_line_plain("    \"rejected\": "@, json_opt(e.rejected));
    lemma_field_line_plain("    \"risk\": "@, json_opt(e.risk));
    lemma_field_line_plain("    \"supersedes\": "@, json_opt(e.supersedes));
    lemma_field_line_plain("    \"tags\": "@, json_array(e.tags));
    lemma_field_line_plain("    \"active\": "@, json_bool(e.superseded_by.len() == 0));
    let a1 = "  {\n"@ + field_line("    \"date\": "@, json_opt(e.date));
    lemma_cat_plain("  {\n"@, field_line("    \"date\": "@, json_opt(e.date)));
    let a2 = a1 + field_line("    \"title\": "@, json_opt(e.title));
    lemma_cat_plain(a1, field_line("    \"title\": "@, json_opt(e.title)));
    let a3 = a2 + field_line("    \"why\": "@, json_opt(e.why));
    lemma_cat_plain(a2, field_line("    \"why\": "@, json_opt(e.why)));
    let a4 = a3 + field_line("    \"rejected\": "@, json_opt(e.rejected));
    lemma_cat_plain(a3, field_line("    \"rejected\": "@, json_opt(e.rejected)));
    let a5 = a4 + field_line("    \"risk\": "@, json_opt(e.risk));
    lemma_cat_plain(a4, field_line("    \"risk\": "@, json_opt(e.risk)));
    let a6 = a5 + field_line("    \"supersedes\": "@, json_opt(e.supersedes));
    lemma_cat_plain(a5, field_line("    \"supersedes\": "@, json_opt(e.supersedes)));
    let a7 = a6 + field_line("    \"tags\": "@, json_array(e.tags));
    lemma_cat_plain(a6, field_line("    \"tags\": "@, json_array(e.tags)));
    let a8 = a7 + field_line("    \"active\": "@, json_bool(e.superseded_by.len() == 0));
    lemma_cat_plain(a7, field_line("    \"active\": "@, json_bool(e.superseded_by.len() == 0)));
    let a9 = a8 + "    \"superseded_by\": "@;
    lemma_cat_plain(a8, "    \"superseded_by\": "@);
    let a10 = a9 + json_array(e.superseded_by);
    lemma_cat_plain(a9, json_array(e.superseded_by));
    let a11 = a10 + "\n"@;
    lemma_cat_plain(a10, "\n"@);
    lemma_cat_plain(a11, "  }"@);
    lemma_field_line_plain("{\"date\":"@, json_opt(e.date));
    lemma_field_line_plain(",\"title\":"@, json_opt(e.title));
    lemma_field_line_plain(",\"why\":"@, json_opt(e.why));
    lemma_field_line_plain(",\"rejected\":"@, json_opt(e.rejected));
    lemma_field_line_plain(",\"risk\":"@, json_opt(e.risk));
    lemma_field_line_plain(",\"supersedes\":"@, json_opt(e.supersedes));
    lemma_field_line_plain(",\"tags\":"@, json_compact_array(e.tags));
    lemma_field_line_plain(",\"active\":"@, json_bool(e.superseded_by.len() == 0));
    lemma_field_line_plain(",\"superseded_by\":"@, json_compact_array(e.superseded_by));
    let b1 = member("{\"date\":"@, json_opt(e.date));
    let b2 = b1 + member(",\"title\":"@, json_opt(e.title));
    lemma_cat_plain(b1, member(",\"title\":"@, json_opt(e.title)));
    let b3 = b2 + member(",\"why\":"@, json_opt(e.why));
    lemma_cat_plain(b2, member(",\"why\":"@, json_opt(e.why)));
    let b4 = b3 + member(",\"rejected\":"@, json_opt(e.rejected));
    lemma_cat_plain(b3, member(",\"rejected\":"@, json_opt(e.rejected)));
    let b5 = b4 + member(",\"risk\":"@, json_opt(e.risk));
    lemma_cat_plain(b4, member(",\"risk\":"@, json_opt(e.risk)));
    let b6 = b5 + member(",\"supersedes\":"@, json_opt(e.supersedes));
    lemma_cat_plain(b5, member(",\"supersedes\":"@, json_opt(e.supersedes)));
    let b7 = b6 + member(",\"tags\":"@, json_compact_array(e.tags));
    lemma_cat_plain(b6, member(",\"tags\":"@, json_compact_array(e.tags)));
    let b8 = b7 + member(",\"active\":"@, json_bool(e.superseded_by.len() == 0));
    lemma_cat_plain(b7, member(",\"active\":"@, json_bool(e.superseded_by.len() == 0)));
    let b9 = b8 + member(",\"superseded_by\":"@, json_compact_array(e.superseded_by));
    lemma_cat_plain(b8, member(",\"superseded_by\":"@, json_compact_array(e.superseded_by)));
    lemma_cat_plain(b9, "}"@);
}

proof fn lemma_issue_plain(i: (int, Seq<char>))
    ensures
        !has_char(json_issue(i), esc()),
{
    lemma_json_literals_plain();
    lemma_decimal_plain(i.0 as nat);
    lemma_str_plain(i.1);
    let a = "    {\n      \"entry\": "@;
    lemma_cat_plain(a, decimal(i.0 as nat));
    lemma_cat_plain(a + decimal(i.0 as nat), ",\n      \"message\": "@);
    lemma_cat_plain(a + decimal(i.0 as nat) + ",\n      \"message\": "@, json_str(i.1));
    lemma_cat_plain(a + decimal(i.0 as nat) + ",\n      \"message\": "@ + json_str(i.1), "\n    }"@);
}

/// Machine output is never colorized: the JSON export, the JSON Lines
/// export and the check report hold no terminal escape character, whatever
/// text the entries and issues hold.
pub proof fn lemma_machine_output_plain(es: Seq<EntryView>, issues: Seq<(int, Seq<char>)>)
    ensures
        !has_char(json_entries(es), esc()),
        !has_char(json_lines(es), esc()),
        !has_char(json_report(es, issues), esc()),
{
    lemma_json_literals_plain();
    let objs = Seq::new(es.len(), |i: int| json_entry(es[i]));
    let ls = Seq::new(es.len(), |i: int| json_line(es[i]));
    assert forall|i: int| 0 <= i < objs.len() implies !has_char(#[trigger] objs[i], esc()) by {
        lemma_entry_plain(es[i]);
    }
    assert forall|i: int| 0 <= i < ls.len() implies !has_char(#[trigger] ls[i], esc()) by {
        lemma_entry_plain(es[i]);
    }
    lemma_join_plain(objs, ",\n"@);
    lemma_join_plain(ls, "\n"@);
    if es.len() > 0 {
        lemma_cat_plain("[\n"@, join(objs, ",\n"@));
        lemma_cat_plain("[\n"@ + join(objs, ",\n"@), "\n]"@);
    }
    let its = Seq::new(issues.len(), |i: int| json_issue(issues[i]));
    assert forall|i: int| 0 <= i < its.len() implies !has_char(#[trigger] its[i], esc()) by {
        lemma_issue_plain(issues[i]);
    }
    lemma_join_plain(its, ",\n"@);
    if issues.len() > 0 {
        lemma_cat_plain("[\n"@, join(its, ",\n"@));
        lemma_cat_plain("[\n"@ + join(its, ",\n"@), "\n  ]"@);
    }
    let active = active_count(es, es.len() as int);
    lemma_bool_plain(issues.len() == 0);
    lemma_decimal_plain(es.len());
    lemma_decimal_plain(active);
    lemma_decimal_plain((es.len() - active) as nat);
    let r1 = "{\n  \"valid\": "@ + json_bool(issues.len() == 0);
    lemma_cat_plain("{\n  \"valid\": "@, json_bool(issues.len() == 0));
    let r2 = r1 + ",\n  \"entries\": "@;
    lemma_cat_plain(r1, ",\n  \"entries\": "@);
    let r3 = r2 + decimal(es.len());
    lemma_cat_plain(r2, decimal(es.len()));
    let r4 = r3 + ",\n  \"active\": "@;
    lemma_cat_plain(r3, ",\n  \"active\": "@);
    let r5 = r4 + decimal(active);
    lemma_cat_plain(r4, decimal(active));
    let r6 = r5 + ",\n  \"superseded\": "@;
    lemma_cat_plain(r5, ",\n  \"superseded\": "@);
    let r7 = r6 + decimal((es.len() - active) as nat);
    lemma_cat_plain(r6, decimal((es.len() - active) as nat));
    let r8 = r7 + ",\n  \"issues\": "@;
    lemma_cat_plain(r7, ",\n  \"issues\": "@);
    let r9 = r8 + json_issues(issues);
    lemma_cat_plain(r8, json_issues(issues));
    lemma_cat_plain(r9, "\n}"@);
}

} // verus!
