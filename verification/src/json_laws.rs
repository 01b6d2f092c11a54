//! What the JSON export denotes: the pretty and the compact forms of an entry
//! differ only in whitespace that JSON ignores, the pretty array is the
//! compact objects in a JSON array, and every string literal decodes back to
//! the text it was made from.
use vstd::prelude::*;

use crate::export::{
    field_line, hex4, hex_char, indented_items, json_array, json_body, json_bool,
    json_compact_array, json_entries, json_entry, json_escape, json_line, json_lines, json_opt,
    json_str,
    member, quoted_items,
};
use crate::parse::EntryView;
use crate::text::{has_char, join, lemma_has_char_concat, lemma_split_append_back, lemma_split_last, split};

verus! {

/// The whitespace characters of JSON's grammar.
pub open spec fn json_ws(c: char) -> bool {
    c == ' ' || c == '\n' || c == '\t' || c == '\r'
}

/// Whether a JSON scanner keeps `c` when it is inside a string literal (`i`)
/// or outside one.
pub open spec fn kept(c: char, i: bool) -> bool {
    i || !json_ws(c)
}

/// Whether the scanner is inside a string literal after `c`, given that it
/// was (`i`), and after a backslash (`e`).
pub open spec fn inside_after(c: char, i: bool, e: bool) -> bool {
    if i {
        e || c != '"'
    } else {
        c == '"'
    }
}

/// Whether `c` starts an escape inside a string literal.
pub open spec fn escape_after(c: char, i: bool, e: bool) -> bool {
    i && !e && c == '\\'
}

/// `s` without the whitespace JSON ignores: whitespace outside string
/// literals; the scan starts inside a literal when `i`, after a backslash
/// when `e`.
pub open spec fn squeeze(s: Seq<char>, i: bool, e: bool) -> Seq<char>
    decreases s.len(),
{
    if s.len() == 0 {
        seq![]
    } else {
        let c = s[0];
        (if kept(c, i) {
            seq![c]
        } else {
            seq![]
        }) + squeeze(s.drop_first(), inside_after(c, i, e), escape_after(c, i, e))
    }
}

/// Where the scan of [`squeeze`] ends: inside a literal, after a backslash.
pub open spec fn squeeze_state(s: Seq<char>, i: bool, e: bool) -> (bool, bool)
    decreases s.len(),
{
    if s.len() == 0 {
        (i, e)
    } else {
        let c = s[0];
        squeeze_state(s.drop_first(), inside_after(c, i, e), escape_after(c, i, e))
    }
}

/// JSON text `p` reads as `q` once the whitespace JSON ignores is removed,
/// and closes every string literal it opens.
#[verifier::opaque]
pub open spec fn same_json(p: Seq<char>, q: Seq<char>) -> bool {
    squeeze(p, false, false) == q && squeeze_state(p, false, false) == (false, false)
}

proof fn lemma_squeeze_concat(a: Seq<char>, b: Seq<char>, i: bool, e: bool)
    ensures
        squeeze(a + b, i, e) == squeeze(a, i, e) + squeeze(
            b,
            squeeze_state(a, i, e).0,
            squeeze_state(a, i, e).1,
        ),
        squeeze_state(a + b, i, e) == squeeze_state(
            b,
            squeeze_state(a, i, e).0,
            squeeze_state(a, i, e).1,
        ),
    decreases a.len(),
{
    if a.len() == 0 {
        assert(a + b =~= b);
        assert(squeeze(a, i, e) =~= Seq::<char>::empty());
        assert(squeeze(a, i, e) + squeeze(b, i, e) =~= squeeze(b, i, e));
    } else {
        let c = a[0];
        assert((a + b)[0] == c);
        assert((a + b).drop_first() =~= a.drop_first() + b);
        let ni = inside_after(c, i, e);
        let ne = escape_after(c, i, e);
        lemma_squeeze_concat(a.drop_first(), b, ni, ne);
        let head = if kept(c, i) {
            seq![c]
        } else {
            Seq::<char>::empty()
        };
        let st = squeeze_state(a, i, e);
        assert(squeeze(a + b, i, e) == head + squeeze(a.drop_first() + b, ni, ne));
        assert(head + (squeeze(a.drop_first(), ni, ne) + squeeze(b, st.0, st.1)) =~= (head
            + squeeze(a.drop_first(), ni, ne)) + squeeze(b, st.0, st.1));
    }
}

proof fn lemma_same_json_concat(p1: Seq<char>, q1: Seq<char>, p2: Seq<char>, q2: Seq<char>)
    requires
        same_json(p1, q1),
        same_json(p2, q2),
    ensures
        same_json(p1 + p2, q1 + q2),
{
    reveal(same_json);
    lemma_squeeze_concat(p1, p2, false, false);
}

/// The value of a hexadecimal digit, or -1.
pub open spec fn hex_value(c: char) -> int {
    if '0' <= c && c <= '9' {
        c as int - 48
    } else if 'a' <= c && c <= 'f' {
        c as int - 87
    } else if 'A' <= c && c <= 'F' {
        c as int - 55
    } else {
        -1
    }
}

/// The hexadecimal digits written in `\u` escapes are plain characters and
/// read back as their value.
proof fn lemma_hex_char(d: int)
    requires
        0 <= d < 16,
    ensures
        hex_char(d) != '"',
        hex_char(d) != '\\',
        hex_value(hex_char(d)) == d,
{
}

/// Inside a string literal, an escaped character is kept whole and the scan
/// stays inside.
proof fn lemma_escape_in_string(c: char)
    ensures
        squeeze(json_escape(c), true, false) == json_escape(c),
        squeeze_state(json_escape(c), true, false) == (true, false),
{
    reveal_with_fuel(squeeze, 7);
    reveal_with_fuel(squeeze_state, 7);
    let v = c as int;
    if c == '"' || c == '\\' || c == '\n' || c == '\r' || c == '\t' || c == '\u{08}' || c
        == '\u{0C}' {
        let x = json_escape(c);
        assert(x.len() == 2 && x[0] == '\\');
        assert(x.drop_first().drop_first() =~= Seq::<char>::empty());
        assert(squeeze(x, true, false) =~= x);
    } else if v < 0x20 {
        let x = json_escape(c);
        lemma_hex_char((v / 4096) % 16);
        lemma_hex_char((v / 256) % 16);
        lemma_hex_char((v / 16) % 16);
        lemma_hex_char(v % 16);
        assert(x.len() == 6);
        assert(x[0] == '\\' && x[1] == 'u');
        assert(x.drop_first().drop_first().drop_first().drop_first().drop_first().drop_first()
            =~= Seq::<char>::empty());
        assert(squeeze(x, true, false) =~= x);
    } else {
        let x = json_escape(c);
        assert(x =~= seq![c]);
        assert(x.drop_first() =~= Seq::<char>::empty());
        assert(squeeze(x, true, false) =~= x);
    }
}

/// The escaped text of a string literal is kept whole and leaves the scan
/// inside the literal.
proof fn lemma_body_in_string(s: Seq<char>)
    ensures
        squeeze(json_body(s), true, false) == json_body(s),
        squeeze_state(json_body(s), true, false) == (true, false),
    decreases s.len(),
{
    if s.len() > 0 {
        lemma_body_in_string(s.drop_last());
        lemma_escape_in_string(s.last());
        lemma_squeeze_concat(json_body(s.drop_last()), json_escape(s.last()), true, false);
    }
}

/// A string literal reads as itself.
proof fn lemma_same_json_str(s: Seq<char>)
    ensures
        same_json(json_str(s), json_str(s)),
{
    reveal(same_json);
    reveal_with_fuel(squeeze, 2);
    reveal_with_fuel(squeeze_state, 2);
    let q = seq!['"'];
    lemma_body_in_string(s);
    assert(squeeze(q, false, false) =~= q);
    lemma_squeeze_concat(q, json_body(s), false, false);
    assert(squeeze(q, true, false) =~= q);
    lemma_squeeze_concat(q + json_body(s), q, false, false);
}

proof fn lemma_same_json_opt(o: Option<Seq<char>>)
    ensures
        same_json(json_opt(o), json_opt(o)),
{
    reveal(same_json);
    match o {
        Some(s) => lemma_same_json_str(s),
        None => {
            reveal_strlit("null");
            reveal_with_fuel(squeeze, 5);
            reveal_with_fuel(squeeze_state, 5);
            assert(squeeze("null"@, false, false) =~= "null"@);
        },
    }
}

proof fn lemma_same_json_bool(b: bool)
    ensures
        same_json(json_bool(b), json_bool(b)),
{
    reveal(same_json);
    reveal_strlit("true");
    reveal_strlit("false");
    reveal_with_fuel(squeeze, 6);
    reveal_with_fuel(squeeze_state, 6);
    assert(squeeze("true"@, false, false) =~= "true"@);
    assert(squeeze("false"@, false, false) =~= "false"@);
}

/// The items of a pretty string array read as those of the compact one.
proof fn lemma_same_json_items(items: Seq<Seq<char>>)
    requires
        items.len() > 0,
    ensures
        same_json(join(indented_items(items), ",\n"@), join(quoted_items(items), ","@)),
    decreases items.len(),
{
    reveal(same_json);
    reveal_strlit("      ");
    reveal_strlit(",\n");
    reveal_strlit(",");
    reveal_with_fuel(squeeze, 8);
    reveal_with_fuel(squeeze_state, 8);
    let n = items.len() as int;
    let ind = indented_items(items);
    let quo = quoted_items(items);
    let pad = "      "@;
    assert(squeeze(pad, false, false) =~= Seq::<char>::empty());
    lemma_same_json_str(items[n - 1]);
    lemma_same_json_concat(pad, Seq::<char>::empty(), json_str(items[n - 1]), json_str(items[n - 1]));
    assert(Seq::<char>::empty() + json_str(items[n - 1]) =~= json_str(items[n - 1]));
    assert(ind[n - 1] == pad + json_str(items[n - 1]));
    assert(quo[n - 1] == json_str(items[n - 1]));
    if n == 1 {
    } else {
        let rest = items.drop_last();
        lemma_same_json_items(rest);
        assert(ind.drop_last() =~= indented_items(rest));
        assert(quo.drop_last() =~= quoted_items(rest));
        assert(squeeze(",\n"@, false, false) =~= ","@);
        lemma_same_json_concat(
            join(indented_items(rest), ",\n"@),
            join(quoted_items(rest), ","@),
            ",\n"@,
            ","@,
        );
        lemma_same_json_concat(
            join(indented_items(rest), ",\n"@) + ",\n"@,
            join(quoted_items(rest), ","@) + ","@,
            ind[n - 1],
            quo[n - 1],
        );
    }
}

/// A pretty string array reads as the compact one.
proof fn lemma_same_json_array(items: Seq<Seq<char>>)
    ensures
        same_json(json_array(items), json_compact_array(items)),
{
    reveal(same_json);
    reveal_strlit("[]");
    reveal_strlit("[\n");
    reveal_strlit("\n    ]");
    reveal_strlit("[");
    reveal_strlit("]");
    reveal_strlit(",");
    reveal_with_fuel(squeeze, 8);
    reveal_with_fuel(squeeze_state, 8);
    if items.len() == 0 {
        assert(quoted_items(items) =~= Seq::<Seq<char>>::empty());
        assert(json_compact_array(items) =~= "[]"@);
        assert(squeeze("[]"@, false, false) =~= "[]"@);
    } else {
        assert(squeeze("[\n"@, false, false) =~= "["@);
        assert(squeeze("\n    ]"@, false, false) =~= "]"@);
        lemma_same_json_items(items);
        lemma_same_json_concat("[\n"@, "["@, join(indented_items(items), ",\n"@), join(quoted_items(items), ","@));
        lemma_same_json_concat(
            "[\n"@ + join(indented_items(items), ",\n"@),
            "["@ + join(quoted_items(items), ","@),
            "\n    ]"@,
            "]"@,
        );
    }
}

proof fn lemma_key_date()
    ensures
        same_json("    \"date\": "@, "\"date\":"@),
        "{\"date\":"@ == "{"@ + "\"date\":"@,
{
    reveal(same_json);
    reveal_strlit("    \"date\": ");
    reveal_strlit("\"date\":");
    reveal_strlit("{\"date\":");
    reveal_strlit("{");
    reveal_with_fuel(squeeze, 24);
    reveal_with_fuel(squeeze_state, 24);
    assert(squeeze("    \"date\": "@, false, false) =~= "\"date\":"@);
    assert("{\"date\":"@ =~= "{"@ + "\"date\":"@);
}

proof fn lemma_key_title()
    ensures
        same_json("    \"title\": "@, "\"title\":"@),
        ",\"title\":"@ == ","@ + "\"title\":"@,
{
    reveal(same_json);
    reveal_strlit("    \"title\": ");
    reveal_strlit("\"title\":");
    reveal_strlit(",\"title\":");
    reveal_strlit(",");
    reveal_with_fuel(squeeze, 24);
    reveal_with_fuel(squeeze_state, 24);
    assert(squeeze("    \"title\": "@, false, false) =~= "\"title\":"@);
    assert(",\"title\":"@ =~= ","@ + "\"title\":"@);
}

proof fn lemma_key_why()
    ensures
        same_json("    \"why\": "@, "\"why\":"@),
        ",\"why\":"@ == ","@ + "\"why\":"@,
{
    reveal(same_json);
    reveal_strlit("    \"why\": ");
    reveal_strlit("\"why\":");
    reveal_strlit(",\"why\":");
    reveal_strlit(",");
    reveal_with_fuel(squeeze, 24);
    reveal_with_fuel(squeeze_state, 24);
    assert(squeeze("    \"why\": "@, false, false) =~= "\"why\":"@);
    assert(",\"why\":"@ =~= ","@ + "\"why\":"@);
}

proof fn lemma_key_rejected()
    ensures
        same_json("    \"rejected\": "@, "\"rejected\":"@),
        ",\"rejected\":"@ == ","@ + "\"rejected\":"@,
{
    reveal(same_json);
    reveal_strlit("    \"rejected\": ");
    reveal_strlit("\"rejected\":");
    reveal_strlit(",\"rejected\":");
    reveal_strlit(",");
    reveal_with_fuel(squeeze, 24);
    reveal_with_fuel(squeeze_state, 24);
    assert(squeeze("    \"rejected\": "@, false, false) =~= "\"rejected\":"@);
    assert(",\"rejected\":"@ =~= ","@ + "\"rejected\":"@);
}

proof fn lemma_key_risk()
    ensures
        same_json("    \"risk\": "@, "\"risk\":"@),
        ",\"risk\":"@ == ","@ + "\"risk\":"@,
{
    reveal(same_json);
    reveal_strlit("    \"risk\": ");
    reveal_strlit("\"risk\":");
    reveal_strlit(",\"risk\":");
    reveal_strlit(",");
    reveal_with_fuel(squeeze, 24);
    reveal_with_fuel(squeeze_state, 24);
    assert(squeeze("    \"risk\": "@, false, false) =~= "\"risk\":"@);
    assert(",\"risk\":"@ =~= ","@ + "\"risk\":"@);
}

proof fn lemma_key_supersedes()
    ensures
        same_json("    \"supersedes\": "@, "\"supersedes\":"@),
        ",\"supersedes\":"@ == ","@ + "\"supersedes\":"@,
{
    reveal(same_json);
    reveal_strlit("    \"supersedes\": ");
    reveal_strlit("\"supersedes\":");
    reveal_strlit(",\"supersedes\":");
    reveal_strlit(",");
    reveal_with_fuel(squeeze, 24);
    reveal_with_fuel(squeeze_state, 24);
    assert(squeeze("    \"supersedes\": "@, false, false) =~= "\"supersedes\":"@);
    assert(",\"supersedes\":"@ =~= ","@ + "\"supersedes\":"@);
}

proof fn lemma_key_tags()
    ensures
        same_json("    \"tags\": "@, "\"tags\":"@),
        ",\"tags\":"@ == ","@ + "\"tags\":"@,
{
    reveal(same_json);
    reveal_strlit("    \"tags\": ");
    reveal_strlit("\"tags\":");
    reveal_strlit(",\"tags\":");
    reveal_strlit(",");
    reveal_with_fuel(squeeze, 24);
    reveal_with_fuel(squeeze_state, 24);
    assert(squeeze("    \"tags\": "@, false, false) =~= "\"tags\":"@);
    assert(",\"tags\":"@ =~= ","@ + "\"tags\":"@);
}

proof fn lemma_key_active()
    ensures
        same_json("    \"active\": "@, "\"active\":"@),
        ",\"active\":"@ == ","@ + "\"active\":"@,
{
    reveal(same_json);
    reveal_strlit("    \"active\": ");
    reveal_strlit("\"active\":");
    reveal_strlit(",\"active\":");
    reveal_strlit(",");
    reveal_with_fuel(squeeze, 24);
    reveal_with_fuel(squeeze_state, 24);
    assert(squeeze("    \"active\": "@, false, false) =~= "\"active\":"@);
    assert(",\"active\":"@ =~= ","@ + "\"active\":"@);
}

proof fn lemma_key_superseded_by()
    ensures
        same_json("    \"superseded_by\": "@, "\"superseded_by\":"@),
        ",\"superseded_by\":"@ == ","@ + "\"superseded_by\":"@,
{
    reveal(same_json);
    reveal_strlit("    \"superseded_by\": ");
    reveal_strlit("\"superseded_by\":");
    reveal_strlit(",\"superseded_by\":");
    reveal_strlit(",");
    reveal_with_fuel(squeeze, 24);
    reveal_with_fuel(squeeze_state, 24);
    assert(squeeze("    \"superseded_by\": "@, false, false) =~= "\"superseded_by\":"@);
    assert(",\"superseded_by\":"@ =~= ","@ + "\"superseded_by\":"@);
}

/// The punctuation around the members of an entry object.
proof fn lemma_object_punctuation()
    ensures
        same_json("  {\n"@, "{"@),
        same_json(",\n"@, ","@),
        same_json("\n"@, Seq::<char>::empty()),
        same_json("  }"@, "}"@),
{
    reveal(same_json);
    reveal_strlit("  {\n");
    reveal_strlit("{");
    reveal_strlit(",\n");
    reveal_strlit(",");
    reveal_strlit("\n");
    reveal_strlit("  }");
    reveal_strlit("}");
    reveal_with_fuel(squeeze, 6);
    reveal_with_fuel(squeeze_state, 6);
    assert(squeeze("  {\n"@, false, false) =~= "{"@);
    assert(squeeze(",\n"@, false, false) =~= ","@);
    assert(squeeze("\n"@, false, false) =~= Seq::<char>::empty());
    assert(squeeze("  }"@, false, false) =~= "}"@);
}

/// Nine member values that read as their compact forms make an object
/// that reads as the one-line object.
proof fn lemma_object_chain(a0: Seq<char>, a1: Seq<char>, a2: Seq<char>, a3: Seq<char>, a4: Seq<char>, a5: Seq<char>, a6: Seq<char>, a7: Seq<char>, a8: Seq<char>, b0: Seq<char>, b1: Seq<char>, b2: Seq<char>, b3: Seq<char>, b4: Seq<char>, b5: Seq<char>, b6: Seq<char>, b7: Seq<char>, b8: Seq<char>)
    requires
        same_json(a0, b0),
        same_json(a1, b1),
        same_json(a2, b2),
        same_json(a3, b3),
        same_json(a4, b4),
        same_json(a5, b5),
        same_json(a6, b6),
        same_json(a7, b7),
        same_json(a8, b8),
    ensures
        same_json("  {\n"@ + field_line("    \"date\": "@, a0) + field_line("    \"title\": "@, a1) + field_line("    \"why\": "@, a2) + field_line("    \"rejected\": "@, a3) + field_line("    \"risk\": "@, a4) + field_line("    \"supersedes\": "@, a5) + field_line("    \"tags\": "@, a6) + field_line("    \"active\": "@, a7) + "    \"superseded_by\": "@ + a8 + "\n"@ + "  }"@, member("{\"date\":"@, b0) + member(",\"title\":"@, b1) + member(",\"why\":"@, b2) + member(",\"rejected\":"@, b3) + member(",\"risk\":"@, b4) + member(",\"supersedes\":"@, b5) + member(",\"tags\":"@, b6) + member(",\"active\":"@, b7) + member(",\"superseded_by\":"@, b8) + "}"@),
{
    lemma_key_date();
    lemma_key_title();
    lemma_key_why();
    lemma_key_rejected();
    lemma_key_risk();
    lemma_key_supersedes();
    lemma_key_tags();
    lemma_key_active();
    lemma_key_superseded_by();
    lemma_object_punctuation();
    let p0 = "  {\n"@;
    let q0 = "{"@;
    lemma_same_json_concat("    \"date\": "@, "\"date\":"@, a0, b0);
    lemma_same_json_concat("    \"date\": "@ + a0, "\"date\":"@ + b0, ",\n"@, ","@);
    assert(field_line("    \"date\": "@, a0) == "    \"date\": "@ + a0 + ",\n"@);
    lemma_same_json_concat(p0, q0, field_line("    \"date\": "@, a0), "\"date\":"@ + b0 + ","@);
    let p1 = p0 + field_line("    \"date\": "@, a0);
    let q1 = q0 + ("\"date\":"@ + b0 + ","@);
    assert(q1 =~= member("{\"date\":"@, b0) + ","@);
    lemma_same_json_concat("    \"title\": "@, "\"title\":"@, a1, b1);
    lemma_same_json_concat("    \"title\": "@ + a1, "\"title\":"@ + b1, ",\n"@, ","@);
    assert(field_line("    \"title\": "@, a1) == "    \"title\": "@ + a1 + ",\n"@);
    lemma_same_json_concat(p1, q1, field_line("    \"title\": "@, a1), "\"title\":"@ + b1 + ","@);
    let p2 = p1 + field_line("    \"title\": "@, a1);
    let q2 = q1 + ("\"title\":"@ + b1 + ","@);
    let m1 = member("{\"date\":"@, b0);
    assert(q2 =~= m1 + member(",\"title\":"@, b1) + ","@);
    lemma_same_json_concat("    \"why\": "@, "\"why\":"@, a2, b2);
    lemma_same_json_concat("    \"why\": "@ + a2, "\"why\":"@ + b2, ",\n"@, ","@);
    assert(field_line("    \"why\": "@, a2) == "    \"why\": "@ + a2 + ",\n"@);
    lemma_same_json_concat(p2, q2, field_line("    \"why\": "@, a2), "\"why\":"@ + b2 + ","@);
    let p3 = p2 + field_line("    \"why\": "@, a2);
    let q3 = q2 + ("\"why\":"@ + b2 + ","@);
    let m2 = member("{\"date\":"@, b0) + member(",\"title\":"@, b1);
    assert(q3 =~= m2 + member(",\"why\":"@, b2) + ","@);
    lemma_same_json_concat("    \"rejected\": "@, "\"rejected\":"@, a3, b3);
    lemma_same_json_concat("    \"rejected\": "@ + a3, "\"rejected\":"@ + b3, ",\n"@, ","@);
    assert(field_line("    \"rejected\": "@, a3) == "    \"rejected\": "@ + a3 + ",\n"@);
    lemma_same_json_concat(p3, q3, field_line("    \"rejected\": "@, a3), "\"rejected\":"@ + b3 + ","@);
    let p4 = p3 + field_line("    \"rejected\": "@, a3);
    let q4 = q3 + ("\"rejected\":"@ + b3 + ","@);
    let m3 = member("{\"date\":"@, b0) + member(",\"title\":"@, b1) + member(",\"why\":"@, b2);
    assert(q4 =~= m3 + member(",\"rejected\":"@, b3) + ","@);
    lemma_same_json_concat("    \"risk\": "@, "\"risk\":"@, a4, b4);
    lemma_same_json_concat("    \"risk\": "@ + a4, "\"risk\":"@ + b4, ",\n"@, ","@);
    assert(field_line("    \"risk\": "@, a4) == "    \"risk\": "@ + a4 + ",\n"@);
    lemma_same_json_concat(p4, q4, field_line("    \"risk\": "@, a4), "\"risk\":"@ + b4 + ","@);
    let p5 = p4 + field_line("    \"risk\": "@, a4);
    let q5 = q4 + ("\"risk\":"@ + b4 + ","@);
    let m4 = member("{\"date\":"@, b0) + member(",\"title\":"@, b1) + member(",\"why\":"@, b2) + member(",\"rejected\":"@, b3);
    assert(q5 =~= m4 + member(",\"risk\":"@, b4) + ","@);
    lemma_same_json_concat("    \"supersedes\": "@, "\"supersedes\":"@, a5, b5);
    lemma_same_json_concat("    \"supersedes\": "@ + a5, "\"supersedes\":"@ + b5, ",\n"@, ","@);
    assert(field_line("    \"supersedes\": "@, a5) == "    \"supersedes\": "@ + a5 + ",\n"@);
    lemma_same_json_concat(p5, q5, field_line("    \"supersedes\": "@, a5), "\"supersedes\":"@ + b5 + ","@);
    let p6 = p5 + field_line("    \"supersedes\": "@, a5);
    let q6 = q5 + ("\"supersedes\":"@ + b5 + ","@);
    let m5 = member("{\"date\":"@, b0) + member(",\"title\":"@, b1) + member(",\"why\":"@, b2) + member(",\"rejected\":"@, b3) + member(",\"risk\":"@, b4);
    assert(q6 =~= m5 + member(",\"supersedes\":"@, b5) + ","@);
    lemma_same_json_concat("    \"tags\": "@, "\"tags\":"@, a6, b6);
    lemma_same_json_concat("    \"tags\": "@ + a6, "\"tags\":"@ + b6, ",\n"@, ","@);
    assert(field_line("    \"tags\": "@, a6) == "    \"tags\": "@ + a6 + ",\n"@);
    lemma_same_json_concat(p6, q6, field_line("    \"tags\": "@, a6), "\"tags\":"@ + b6 + ","@);
    let p7 = p6 + field_line("    \"tags\": "@, a6);
    let q7 = q6 + ("\"tags\":"@ + b6 + ","@);
    let m6 = member("{\"date\":"@, b0) + member(",\"title\":"@, b1) + member(",\"why\":"@, b2) + member(",\"rejected\":"@, b3) + member(",\"risk\":"@, b4) + member(",\"supersedes\":"@, b5);
    assert(q7 =~= m6 + member(",\"tags\":"@, b6) + ","@);
    lemma_same_json_concat("    \"active\": "@, "\"active\":"@, a7, b7);
    lemma_same_json_concat("    \"active\": "@ + a7, "\"active\":"@ + b7, ",\n"@, ","@);
    assert(field_line("    \"active\": "@, a7) == "    \"active\": "@ + a7 + ",\n"@);
    lemma_same_json_concat(p7, q7, field_line("    \"active\": "@, a7), "\"active\":"@ + b7 + ","@);
    let p8 = p7 + field_line("    \"active\": "@, a7);
    let q8 = q7 + ("\"active\":"@ + b7 + ","@);
    let m7 = member("{\"date\":"@, b0) + member(",\"title\":"@, b1) + member(",\"why\":"@, b2) + member(",\"rejected\":"@, b3) + member(",\"risk\":"@, b4) + member(",\"supersedes\":"@, b5) + member(",\"tags\":"@, b6);
    assert(q8 =~= m7 + member(",\"active\":"@, b7) + ","@);
    lemma_same_json_concat(p8, q8, "    \"superseded_by\": "@, "\"superseded_by\":"@);
    lemma_same_json_concat(p8 + "    \"superseded_by\": "@, q8 + "\"superseded_by\":"@, a8, b8);
    lemma_same_json_concat(p8 + "    \"superseded_by\": "@ + a8, q8 + "\"superseded_by\":"@ + b8, "\n"@, Seq::<char>::empty());
    lemma_same_json_concat(p8 + "    \"superseded_by\": "@ + a8 + "\n"@, q8 + "\"superseded_by\":"@ + b8 + Seq::<char>::empty(), "  }"@, "}"@);
    let m8 = member("{\"date\":"@, b0) + member(",\"title\":"@, b1) + member(",\"why\":"@, b2) + member(",\"rejected\":"@, b3) + member(",\"risk\":"@, b4) + member(",\"supersedes\":"@, b5) + member(",\"tags\":"@, b6) + member(",\"active\":"@, b7);
    assert(q8 + "\"superseded_by\":"@ + b8 + Seq::<char>::empty() + "}"@ =~= m8 + member(",\"superseded_by\":"@, b8) + "}"@);
}

/// The pretty object of an entry and its one-line object differ only in the
/// whitespace JSON ignores outside string literals, so they denote the same
/// JSON value.
pub proof fn lemma_json_line_same_value(e: EntryView)
    ensures
        same_json(json_entry(e), json_line(e)),
{
    lemma_same_json_opt(e.date);
    lemma_same_json_opt(e.title);
    lemma_same_json_opt(e.why);
    lemma_same_json_opt(e.rejected);
    lemma_same_json_opt(e.risk);
    lemma_same_json_opt(e.supersedes);
    lemma_same_json_array(e.tags);
    lemma_same_json_bool(e.superseded_by.len() == 0);
    lemma_same_json_array(e.superseded_by);
    lemma_object_chain(json_opt(e.date), json_opt(e.title), json_opt(e.why), json_opt(e.rejected), json_opt(e.risk), json_opt(e.supersedes), json_array(e.tags), json_bool(e.superseded_by.len() == 0), json_array(e.superseded_by), json_opt(e.date), json_opt(e.title), json_opt(e.why), json_opt(e.rejected), json_opt(e.risk), json_opt(e.supersedes), json_compact_array(e.tags), json_bool(e.superseded_by.len() == 0), json_compact_array(e.superseded_by));
}

/// The compact one-line objects of `es`.
pub open spec fn compact_objects(es: Seq<EntryView>) -> Seq<Seq<char>> {
    Seq::new(es.len(), |i: int| json_line(es[i]))
}

/// The pretty objects of `es`.
pub open spec fn pretty_objects(es: Seq<EntryView>) -> Seq<Seq<char>> {
    Seq::new(es.len(), |i: int| json_entry(es[i]))
}

proof fn lemma_same_json_objects(es: Seq<EntryView>)
    requires
        es.len() > 0,
    ensures
        same_json(join(pretty_objects(es), ",\n"@), join(compact_objects(es), ","@)),
    decreases es.len(),
{
    let n = es.len() as int;
    let ps = pretty_objects(es);
    let cs = compact_objects(es);
    lemma_json_line_same_value(es[n - 1]);
    assert(ps[n - 1] == json_entry(es[n - 1]));
    assert(cs[n - 1] == json_line(es[n - 1]));
    if n > 1 {
        let rest = es.drop_last();
        lemma_same_json_objects(rest);
        assert(ps.drop_last() =~= pretty_objects(rest));
        assert(cs.drop_last() =~= compact_objects(rest));
        lemma_object_punctuation();
        lemma_same_json_concat(
            join(pretty_objects(rest), ",\n"@),
            join(compact_objects(rest), ","@),
            ",\n"@,
            ","@,
        );
        lemma_same_json_concat(
            join(pretty_objects(rest), ",\n"@) + ",\n"@,
            join(compact_objects(rest), ","@) + ","@,
            ps[n - 1],
            cs[n - 1],
        );
    }
}

/// The pretty export of `es` is, up to the whitespace JSON ignores, a JSON
/// array of the one-line objects of the entries in document order; each
/// closes every string literal it opens.
pub proof fn lemma_json_entries_array(es: Seq<EntryView>)
    ensures
        same_json(json_entries(es), "["@ + join(compact_objects(es), ","@) + "]"@),
{
    reveal_strlit("[]");
    reveal_strlit("[\n");
    reveal_strlit("\n]");
    reveal_strlit("[");
    reveal_strlit("]");
    if es.len() == 0 {
        reveal(same_json);
        reveal_with_fuel(squeeze, 3);
        reveal_with_fuel(squeeze_state, 3);
        assert(compact_objects(es) =~= Seq::<Seq<char>>::empty());
        assert("["@ + join(compact_objects(es), ","@) + "]"@ =~= "[]"@);
        assert(squeeze("[]"@, false, false) =~= "[]"@);
    } else {
        assert(same_json("[\n"@, "["@) && same_json("\n]"@, "]"@)) by {
            reveal(same_json);
            reveal_with_fuel(squeeze, 3);
            reveal_with_fuel(squeeze_state, 3);
            assert(squeeze("[\n"@, false, false) =~= "["@);
            assert(squeeze("\n]"@, false, false) =~= "]"@);
        }
        lemma_same_json_objects(es);
        assert(Seq::new(es.len(), |i: int| json_entry(es[i])) =~= pretty_objects(es));
        lemma_same_json_concat(
            "[\n"@,
            "["@,
            join(pretty_objects(es), ",\n"@),
            join(compact_objects(es), ","@),
        );
        lemma_same_json_concat(
            "[\n"@ + join(pretty_objects(es), ",\n"@),
            "["@ + join(compact_objects(es), ","@),
            "\n]"@,
            "]"@,
        );
    }
}

/// The character a one-letter JSON escape `\x` stands for.
pub open spec fn short_escape(x: char) -> Option<char> {
    if x == '"' {
        Some('"')
    } else if x == '\\' {
        Some('\\')
    } else if x == '/' {
        Some('/')
    } else if x == 'n' {
        Some('\n')
    } else if x == 'r' {
        Some('\r')
    } else if x == 't' {
        Some('\t')
    } else if x == 'b' {
        Some('\u{08}')
    } else if x == 'f' {
        Some('\u{0C}')
    } else {
        None
    }
}

/// Whether the four characters of `t` from `k` are hexadecimal digits.
pub open spec fn hex_digits_at(t: Seq<char>, k: int) -> bool {
    hex_value(t[k]) >= 0 && hex_value(t[k + 1]) >= 0 && hex_value(t[k + 2]) >= 0 && hex_value(
        t[k + 3],
    ) >= 0
}

/// The value of the four hexadecimal digits of `t` from `k`.
pub open spec fn hex_number_at(t: Seq<char>, k: int) -> int {
    4096 * hex_value(t[k]) + 256 * hex_value(t[k + 1]) + 16 * hex_value(t[k + 2]) + hex_value(
        t[k + 3],
    )
}

/// The text that the contents `t` of a JSON string literal stand for, as a
/// JSON reader decodes them; `None` when they hold an unescaped quote or
/// control character, or an escape that is not valid (escapes that stand
/// for halves of surrogate pairs are not decoded).
pub open spec fn json_unescape(t: Seq<char>) -> Option<Seq<char>>
    decreases t.len(),
{
    if t.len() == 0 {
        Some(seq![])
    } else if t[0] == '"' || (t[0] as int) < 0x20 {
        None
    } else if t[0] == '\\' {
        if t.len() >= 2 && short_escape(t[1]) is Some {
            match json_unescape(t.subrange(2, t.len() as int)) {
                Some(r) => Some(seq![short_escape(t[1])->0] + r),
                None => None,
            }
        } else if t.len() >= 6 && t[1] == 'u' && hex_digits_at(t, 2) && hex_number_at(t, 2)
            < 0xD800 {
            match json_unescape(t.subrange(6, t.len() as int)) {
                Some(r) => Some(seq![hex_number_at(t, 2) as char] + r),
                None => None,
            }
        } else {
            None
        }
    } else {
        match json_unescape(t.drop_first()) {
            Some(r) => Some(seq![t[0]] + r),
            None => None,
        }
    }
}

/// An escaped character decodes back to itself, before whatever follows.
proof fn lemma_unescape_escape(c: char, rest: Seq<char>)
    ensures
        json_unescape(json_escape(c) + rest) == match json_unescape(rest) {
            Some(r) => Some(seq![c] + r),
            None => None::<Seq<char>>,
        },
{
    let t = json_escape(c) + rest;
    let v = c as int;
    if c == '"' || c == '\\' || c == '\n' || c == '\r' || c == '\t' || c == '\u{08}' || c
        == '\u{0C}' {
        assert(t[0] == '\\');
        assert(t.subrange(2, t.len() as int) =~= rest);
    } else if v < 0x20 {
        lemma_hex_char((v / 4096) % 16);
        lemma_hex_char((v / 256) % 16);
        lemma_hex_char((v / 16) % 16);
        lemma_hex_char(v % 16);
        assert(t[0] == '\\' && t[1] == 'u');
        assert(t[2] == hex_char((v / 4096) % 16));
        assert(t[5] == hex_char(v % 16));
        assert(hex_number_at(t, 2) == v);
        assert(t.subrange(6, t.len() as int) =~= rest);
        assert(short_escape(t[1]) is None);
    } else {
        assert(t[0] == c);
        assert(t.drop_first() =~= rest);
    }
}

/// The escaped text of `c` followed by `s` starts with the escape of `c`.
proof fn lemma_body_front(c: char, s: Seq<char>)
    ensures
        json_body(seq![c] + s) == json_escape(c) + json_body(s),
    decreases s.len(),
{
    if s.len() == 0 {
        assert(seq![c] + s =~= seq![c]);
        assert(seq![c].drop_last() =~= Seq::<char>::empty());
        assert(json_body(Seq::<char>::empty()) =~= Seq::<char>::empty());
        assert(json_escape(c) + json_body(s) =~= Seq::<char>::empty() + json_escape(c));
    } else {
        lemma_body_front(c, s.drop_last());
        assert((seq![c] + s).drop_last() =~= seq![c] + s.drop_last());
        assert((seq![c] + s).last() == s.last());
        assert(json_escape(c) + json_body(s.drop_last()) + json_escape(s.last()) =~= json_escape(c)
            + (json_body(s.drop_last()) + json_escape(s.last())));
    }
}

/// Every JSON string literal the export writes decodes back to the text it
/// was made from.
pub proof fn lemma_json_string_decodes(s: Seq<char>)
    ensures
        json_unescape(json_body(s)) == Some(s),
    decreases s.len(),
{
    if s.len() == 0 {
        assert(json_body(s) =~= Seq::<char>::empty());
    } else {
        let rest = s.drop_first();
        assert(s =~= seq![s[0]] + rest);
        lemma_body_front(s[0], rest);
        lemma_json_string_decodes(rest);
        lemma_unescape_escape(s[0], json_body(rest));
        assert(seq![s[0]] + rest =~= s);
    }
}

/// Whether `s` holds no newline, read character by character.
pub open spec fn nl_free(s: Seq<char>) -> bool
    decreases s.len(),
{
    s.len() == 0 || (s[0] != '\n' && nl_free(s.drop_first()))
}

proof fn lemma_nl_free(s: Seq<char>)
    ensures
        nl_free(s) <==> !has_char(s, '\n'),
    decreases s.len(),
{
    if s.len() > 0 {
        lemma_nl_free(s.drop_first());
        assert(s =~= seq![s[0]] + s.drop_first());
        lemma_has_char_concat(seq![s[0]], s.drop_first(), '\n');
        assert(has_char(seq![s[0]], '\n') <==> s[0] == '\n') by {
            if has_char(seq![s[0]], '\n') {
                let k = choose|k: int| 0 <= k < 1 && seq![s[0]][k] == '\n';
                assert(k == 0);
            }
        }
    }
}

/// The literals of a one-line object hold no newline.
proof fn lemma_line_literals_nl_free()
    ensures
        !has_char("{\"date\":"@, '\n'),
        !has_char(",\"title\":"@, '\n'),
        !has_char(",\"why\":"@, '\n'),
        !has_char(",\"rejected\":"@, '\n'),
        !has_char(",\"risk\":"@, '\n'),
        !has_char(",\"supersedes\":"@, '\n'),
        !has_char(",\"tags\":"@, '\n'),
        !has_char(",\"active\":"@, '\n'),
        !has_char(",\"superseded_by\":"@, '\n'),
        !has_char("}"@, '\n'),
        !has_char("null"@, '\n'),
        !has_char("true"@, '\n'),
        !has_char("false"@, '\n'),
        !has_char("["@, '\n'),
        !has_char("]"@, '\n'),
        !has_char(","@, '\n'),
{
    reveal_strlit("{\"date\":");
    reveal_strlit(",\"title\":");
    reveal_strlit(",\"why\":");
    reveal_strlit(",\"rejected\":");
    reveal_strlit(",\"risk\":");
    reveal_strlit(",\"supersedes\":");
    reveal_strlit(",\"tags\":");
    reveal_strlit(",\"active\":");
    reveal_strlit(",\"superseded_by\":");
    reveal_strlit("}");
    reveal_strlit("null");
    reveal_strlit("true");
    reveal_strlit("false");
    reveal_strlit("[");
    reveal_strlit("]");
    reveal_strlit(",");
    reveal_with_fuel(nl_free, 20);
    assert(nl_free("{\"date\":"@));
    assert(nl_free(",\"title\":"@));
    assert(nl_free(",\"why\":"@));
    assert(nl_free(",\"rejected\":"@));
    assert(nl_free(",\"risk\":"@));
    assert(nl_free(",\"supersedes\":"@));
    assert(nl_free(",\"tags\":"@));
    assert(nl_free(",\"active\":"@));
    assert(nl_free(",\"superseded_by\":"@));
    assert(nl_free("}"@));
    assert(nl_free("null"@));
    assert(nl_free("true"@));
    assert(nl_free("false"@));
    assert(nl_free("["@));
    assert(nl_free("]"@));
    assert(nl_free(","@));
    lemma_nl_free("{\"date\":"@);
    lemma_nl_free(",\"title\":"@);
    lemma_nl_free(",\"why\":"@);
    lemma_nl_free(",\"rejected\":"@);
    lemma_nl_free(",\"risk\":"@);
    lemma_nl_free(",\"supersedes\":"@);
    lemma_nl_free(",\"tags\":"@);
    lemma_nl_free(",\"active\":"@);
    lemma_nl_free(",\"superseded_by\":"@);
    lemma_nl_free("}"@);
    lemma_nl_free("null"@);
    lemma_nl_free("true"@);
    lemma_nl_free("false"@);
    lemma_nl_free("["@);
    lemma_nl_free("]"@);
    lemma_nl_free(","@);
}

proof fn lemma_escape_nl_free(c: char)
    ensures
        !has_char(json_escape(c), '\n'),
{
    reveal_with_fuel(nl_free, 7);
    let v = c as int;
    if v < 0x20 && !(c == '\n' || c == '\r' || c == '\t' || c == '\u{08}' || c == '\u{0C}') {
        lemma_hex_char((v / 4096) % 16);
        lemma_hex_char((v / 256) % 16);
        lemma_hex_char((v / 16) % 16);
        lemma_hex_char(v % 16);
    }
    let x = json_escape(c);
    assert(nl_free(x));
    lemma_nl_free(x);
}

proof fn lemma_body_nl_free(s: Seq<char>)
    ensures
        !has_char(json_body(s), '\n'),
    decreases s.len(),
{
    if s.len() > 0 {
        lemma_body_nl_free(s.drop_last());
        lemma_escape_nl_free(s.last());
        lemma_has_char_concat(json_body(s.drop_last()), json_escape(s.last()), '\n');
    } else {
        assert(json_body(s) =~= Seq::<char>::empty());
    }
}

proof fn lemma_str_nl_free(s: Seq<char>)
    ensures
        !has_char(json_str(s), '\n'),
{
    let q = seq!['"'];
    assert(nl_free(q)) by {
        reveal_with_fuel(nl_free, 2);
    }
    lemma_nl_free(q);
    lemma_body_nl_free(s);
    lemma_has_char_concat(q, json_body(s), '\n');
    lemma_has_char_concat(q + json_body(s), q, '\n');
}

proof fn lemma_compact_items_nl_free(items: Seq<Seq<char>>)
    ensures
        !has_char(join(quoted_items(items), ","@), '\n'),
    decreases items.len(),
{
    lemma_line_literals_nl_free();
    let q = quoted_items(items);
    if items.len() == 0 {
        assert(join(q, ","@) =~= Seq::<char>::empty());
    } else {
        lemma_str_nl_free(items.last());
        assert(q.last() == json_str(items.last()));
        if items.len() == 1 {
        } else {
            lemma_compact_items_nl_free(items.drop_last());
            assert(q.drop_last() =~= quoted_items(items.drop_last()));
            lemma_has_char_concat(join(q.drop_last(), ","@), ","@, '\n');
            lemma_has_char_concat(join(q.drop_last(), ","@) + ","@, q.last(), '\n');
        }
    }
}

/// A one-line object holds no newline.
pub proof fn lemma_json_line_one_line(e: EntryView)
    ensures
        !has_char(json_line(e), '\n'),
{
    lemma_line_literals_nl_free();
    lemma_compact_items_nl_free(e.tags);
    lemma_compact_items_nl_free(e.superseded_by);
    lemma_has_char_concat("["@, join(quoted_items(e.tags), ","@), '\n');
    lemma_has_char_concat("["@ + join(quoted_items(e.tags), ","@), "]"@, '\n');
    lemma_has_char_concat("["@, join(quoted_items(e.superseded_by), ","@), '\n');
    lemma_has_char_concat("["@ + join(quoted_items(e.superseded_by), ","@), "]"@, '\n');
    match e.date {
        Some(x) => lemma_str_nl_free(x),
        None => {},
    }
    match e.title {
        Some(x) => lemma_str_nl_free(x),
        None => {},
    }
    match e.why {
        Some(x) => lemma_str_nl_free(x),
        None => {},
    }
    match e.rejected {
        Some(x) => lemma_str_nl_free(x),
        None => {},
    }
    match e.risk {
        Some(x) => lemma_str_nl_free(x),
        None => {},
    }
    match e.supersedes {
        Some(x) => lemma_str_nl_free(x),
        None => {},
    }
    lemma_has_char_concat("{\"date\":"@, json_opt(e.date), '\n');
    lemma_has_char_concat(",\"title\":"@, json_opt(e.title), '\n');
    lemma_has_char_concat(",\"why\":"@, json_opt(e.why), '\n');
    lemma_has_char_concat(",\"rejected\":"@, json_opt(e.rejected), '\n');
    lemma_has_char_concat(",\"risk\":"@, json_opt(e.risk), '\n');
    lemma_has_char_concat(",\"supersedes\":"@, json_opt(e.supersedes), '\n');
    lemma_has_char_concat(",\"tags\":"@, json_compact_array(e.tags), '\n');
    lemma_has_char_concat(",\"active\":"@, json_bool(e.superseded_by.len() == 0), '\n');
    lemma_has_char_concat(",\"superseded_by\":"@, json_compact_array(e.superseded_by), '\n');
    let p0 = member("{\"date\":"@, json_opt(e.date));
    lemma_has_char_concat(p0, member(",\"title\":"@, json_opt(e.title)), '\n');
    let p1 = p0 + member(",\"title\":"@, json_opt(e.title));
    lemma_has_char_concat(p1, member(",\"why\":"@, json_opt(e.why)), '\n');
    let p2 = p1 + member(",\"why\":"@, json_opt(e.why));
    lemma_has_char_concat(p2, member(",\"rejected\":"@, json_opt(e.rejected)), '\n');
    let p3 = p2 + member(",\"rejected\":"@, json_opt(e.rejected));
    lemma_has_char_concat(p3, member(",\"risk\":"@, json_opt(e.risk)), '\n');
    let p4 = p3 + member(",\"risk\":"@, json_opt(e.risk));
    lemma_has_char_concat(p4, member(",\"supersedes\":"@, json_opt(e.supersedes)), '\n');
    let p5 = p4 + member(",\"supersedes\":"@, json_opt(e.supersedes));
    lemma_has_char_concat(p5, member(",\"tags\":"@, json_compact_array(e.tags)), '\n');
    let p6 = p5 + member(",\"tags\":"@, json_compact_array(e.tags));
    lemma_has_char_concat(p6, member(",\"active\":"@, json_bool(e.superseded_by.len() == 0)), '\n');
    let p7 = p6 + member(",\"active\":"@, json_bool(e.superseded_by.len() == 0));
    lemma_has_char_concat(p7, member(",\"superseded_by\":"@, json_compact_array(e.superseded_by)), '\n');
    let p8 = p7 + member(",\"superseded_by\":"@, json_compact_array(e.superseded_by));
    lemma_has_char_concat(p8, "}"@, '\n');
    assert(json_line(e) == p8 + "}"@);
}

/// The JSON Lines export splits at its newlines into exactly the one-line
/// objects of the entries, in order; with no entries it is empty.
pub proof fn lemma_json_lines_split(es: Seq<EntryView>)
    ensures
        es.len() == 0 ==> json_lines(es) == Seq::<char>::empty(),
        es.len() > 0 ==> split(json_lines(es), '\n') == compact_objects(es),
    decreases es.len(),
{
    reveal_strlit("\n");
    assert("\n"@ =~= seq!['\n']);
    let n = es.len() as int;
    let ls = Seq::new(es.len(), |i: int| json_line(es[i]));
    if n == 0 {
        assert(join(ls, "\n"@) =~= Seq::<char>::empty());
    } else {
        lemma_json_line_one_line(es[n - 1]);
        assert(ls.last() == json_line(es[n - 1]));
        if n == 1 {
            lemma_split_last(json_line(es[0]), '\n');
            assert(compact_objects(es) =~= seq![json_line(es[0])]);
        } else {
            let rest = es.drop_last();
            lemma_json_lines_split(rest);
            assert(ls.drop_last() =~= Seq::new(rest.len(), |i: int| json_line(rest[i])));
            lemma_split_append_back(json_lines(rest), json_line(es[n - 1]), '\n');
            assert(json_lines(es) == json_lines(rest) + seq!['\n'] + json_line(es[n - 1]));
            assert(compact_objects(es) =~= compact_objects(rest) + seq![json_line(es[n - 1])]);
        }
    }
}

} // verus!
