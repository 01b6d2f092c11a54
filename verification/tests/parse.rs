use logbook::parse::{matching_prior_entries, parse_entries};

#[test]
fn empty_or_preamble_only_has_no_entries() {
    assert!(parse_entries("").is_empty());
    assert!(parse_entries("# logbook\n\npreamble\n").is_empty());
}

#[test]
fn parses_all_canonical_fields() {
    let entry = &parse_entries(
        "## 2026-05-16 — switched ORM\n**why:** perf\n**supersedes:** 2026-05-01 — old ORM\n**rejected:** redis\n**risk:** migrations\n**tags:** db, perf\n",
    )[0];
    assert_eq!(entry.date.as_deref(), Some("2026-05-16"));
    assert_eq!(entry.title.as_deref(), Some("switched ORM"));
    assert_eq!(entry.why.as_deref(), Some("perf"));
    assert_eq!(entry.supersedes.as_deref(), Some("2026-05-01 — old ORM"));
    assert_eq!(entry.rejected.as_deref(), Some("redis"));
    assert_eq!(entry.risk.as_deref(), Some("migrations"));
    assert_eq!(entry.tags, ["db", "perf"]);
    assert!(entry.superseded_by.is_empty());
}

#[test]
fn preserves_document_order_and_drops_preamble() {
    let entries = parse_entries(
        "# logbook\n\npreamble\n\n## 2026-05-15 — first\n**why:** a\n\n## 2026-05-16 — second\n**why:** b\n",
    );
    assert_eq!(entries.len(), 2);
    assert_eq!(entries[0].title.as_deref(), Some("first"));
    assert_eq!(entries[1].title.as_deref(), Some("second"));
}

#[test]
fn malformed_header_keeps_a_useful_title_without_a_date() {
    let entry = &parse_entries("## not-a-date wat\n**why:** w\n")[0];
    assert_eq!(entry.date, None);
    assert_eq!(entry.title.as_deref(), Some("not-a-date wat"));
}

#[test]
fn dated_header_without_the_delimiter_has_no_title() {
    let entry = &parse_entries("## 2026-05-16\n**why:** w\n")[0];
    assert_eq!(entry.date.as_deref(), Some("2026-05-16"));
    assert_eq!(entry.title, None);
}

#[test]
fn title_can_contain_an_em_dash() {
    let entry = &parse_entries("## 2026-05-16 — switched ORM — finally\n**why:** w\n")[0];
    assert_eq!(entry.title.as_deref(), Some("switched ORM — finally"));
}

#[test]
fn tag_parsing_trims_empties_and_uses_the_first_field() {
    let entry = &parse_entries(
        "## 2026-05-16 — t\n**why:** w\n**tags:**  refactor ,, perf  ,\n**tags:** ignored\n",
    )[0];
    assert_eq!(entry.tags, ["refactor", "perf"]);
}

#[test]
fn missing_or_empty_optional_fields_are_none() {
    let entry = &parse_entries("## 2026-05-16 — t\n**why:**   \n")[0];
    assert_eq!(entry.why, None);
    assert_eq!(entry.rejected, None);
    assert_eq!(entry.risk, None);
    assert_eq!(entry.supersedes, None);
    assert!(entry.tags.is_empty());
}

#[test]
fn raw_entry_has_no_trailing_whitespace() {
    let entry = &parse_entries("## 2026-05-16 — t\n**why:** w\n\n  \n")[0];
    assert_eq!(entry.raw, "## 2026-05-16 — t\n**why:** w");
}

#[test]
fn multiline_fields_survive_parsing() {
    let entry = &parse_entries(
        "## 2026-05-16 — t\n**why:** first paragraph\nsecond line\n\nthird paragraph\n**risk:** first risk\nsecond risk\n**tags:** docs\n",
    )[0];
    assert_eq!(
        entry.why.as_deref(),
        Some("first paragraph\nsecond line\n\nthird paragraph")
    );
    assert_eq!(entry.risk.as_deref(), Some("first risk\nsecond risk"));
}

#[test]
fn derives_forward_supersession_links_for_titled_and_legacy_references() {
    let entries = parse_entries(
        "## 2026-01-01 — first\n**why:** a\n\n\
         ## 2026-01-02 — second\n**why:** b\n**supersedes:** 2026-01-01 — first\n\n\
         ## 2026-01-03 — third\n**why:** c\n**supersedes:** 2026-01-02\n",
    );
    assert_eq!(entries[0].superseded_by, ["2026-01-02 — second"]);
    assert_eq!(entries[1].superseded_by, ["2026-01-03 — third"]);
    assert!(entries[2].is_active());
}

#[test]
fn reference_is_date_and_title() {
    let entries = parse_entries("## 2026-01-01 — first\n**why:** a\n\n## 2026-01-02\n**why:** b\n");
    assert_eq!(entries[0].reference().as_deref(), Some("2026-01-01 — first"));
    assert_eq!(entries[1].reference(), None);
}

#[test]
fn crlf_documents_parse_like_lf_documents() {
    let entries = parse_entries("## 2026-01-01 — first\r\n**why:** a\r\n**tags:** x\r\n");
    assert_eq!(entries.len(), 1);
    assert_eq!(entries[0].title.as_deref(), Some("first"));
    assert_eq!(entries[0].why.as_deref(), Some("a"));
    assert_eq!(entries[0].tags, ["x"]);
}

#[test]
fn an_ambiguous_link_marks_no_entry_superseded() {
    let entries = parse_entries(
        "## 2026-01-01 — a\n**why:** a\n\n\
         ## 2026-01-01 — b\n**why:** b\n\n\
         ## 2026-01-02 — c\n**why:** c\n**supersedes:** 2026-01-01\n",
    );
    assert!(entries[0].is_active());
    assert!(entries[1].is_active());
    assert_eq!(matching_prior_entries(&entries, 2, "2026-01-01"), [0, 1]);
    assert_eq!(matching_prior_entries(&entries, 2, "2026-01-01 — b"), [1]);
    assert!(matching_prior_entries(&entries, 1, "2026-01-01 — b").is_empty());
}
