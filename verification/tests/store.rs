use logbook::parse::parse_entries;
use logbook::store::{append_separator, appended_text, render_entry_block, RenderInput};

fn input<'a>(tags: &'a [String]) -> RenderInput<'a> {
    RenderInput {
        date: "2026-05-16",
        title: "t",
        why: "w",
        rejected: None,
        risk: None,
        tags,
        supersedes: None,
    }
}

#[test]
fn renders_minimal_and_full_entries() {
    assert_eq!(
        render_entry_block(&input(&[])),
        "## 2026-05-16 — t\n**why:** w\n\n"
    );
    let tags = vec![" a ".into(), "".into(), "b".into()];
    let mut full = input(&tags);
    full.supersedes = Some("2026-05-01 — old");
    full.rejected = Some("rej");
    full.risk = Some("rsk");
    assert_eq!(
        render_entry_block(&full),
        "## 2026-05-16 — t\n**why:** w\n**supersedes:** 2026-05-01 — old\n**rejected:** rej\n**risk:** rsk\n**tags:** a, b\n\n"
    );
}

#[test]
fn omits_blank_optional_fields_and_tags() {
    let tags = vec![" ".into()];
    let mut value = input(&tags);
    value.supersedes = Some(" ");
    value.rejected = Some("");
    value.risk = Some("   ");
    assert_eq!(
        render_entry_block(&value),
        "## 2026-05-16 — t\n**why:** w\n\n"
    );
}

#[test]
fn atomic_append_inserts_a_parseable_boundary_after_hand_edits() {
    let block = "## 2026-05-17 — new\n**why:** new reason\n\n";
    for existing in [
        "",
        "## 2026-05-16 — old\n**why:** old reason",
        "## 2026-05-16 — old\n**why:** old reason\n",
        "## 2026-05-16 — old\n**why:** old reason\n\n",
        "## 2026-05-16 — old\r\n**why:** old reason\r\n",
        "## 2026-05-16 — old\r\n**why:** old reason\r\n\r\n",
    ] {
        let text = appended_text(existing, block);
        assert!(text.starts_with(existing));
        assert_eq!(
            parse_entries(&text).last().unwrap().title.as_deref(),
            Some("new")
        );
        assert_eq!(
            parse_entries(&text).len(),
            if existing.is_empty() { 1 } else { 2 }
        );
    }
}

#[test]
fn appending_after_an_unclosed_carriage_return_keeps_the_old_entry() {
    let existing = "## 2026-05-16 — old\r\n**why:** old reason\r";
    let block = "## 2026-05-17 — new\n**why:** new reason\n\n";
    let before = parse_entries(existing);
    let text = appended_text(existing, block);
    assert_eq!(text, format!("{existing}\n\n{block}"));
    let after = parse_entries(&text);
    assert_eq!(after.len(), 2);
    assert_eq!(after[0], before[0]);
    assert_eq!(after[0].why.as_deref(), Some("old reason"));
    assert_eq!(after[1].title.as_deref(), Some("new"));
}

#[test]
fn append_separator_covers_every_ending() {
    assert_eq!(append_separator(""), "");
    assert_eq!(append_separator("x\n\n"), "");
    assert_eq!(append_separator("x\r\n\r\n"), "");
    assert_eq!(append_separator("x\n"), "\n");
    assert_eq!(append_separator("x\r\n"), "\n");
    assert_eq!(append_separator("x"), "\n\n");
}

#[test]
fn appended_text_is_existing_then_separator_then_block() {
    assert_eq!(appended_text("# logbook\n", "B"), "# logbook\n\nB");
    assert_eq!(appended_text("", "B"), "B");
    assert_eq!(appended_text("a\n\n", "B"), "a\n\nB");
}

#[test]
fn a_rendered_entry_parses_back_to_its_fields() {
    let tags = vec!["db".to_string(), "perf".to_string()];
    let value = RenderInput {
        date: "2026-05-16",
        title: "switched ORM",
        why: "perf",
        rejected: Some("redis"),
        risk: Some("migrations"),
        tags: &tags,
        supersedes: Some("2026-05-01 — old ORM"),
    };
    let block = render_entry_block(&value);
    let entries = parse_entries(&block);
    assert_eq!(entries.len(), 1);
    let e = &entries[0];
    assert_eq!(e.date.as_deref(), Some("2026-05-16"));
    assert_eq!(e.title.as_deref(), Some("switched ORM"));
    assert_eq!(e.why.as_deref(), Some("perf"));
    assert_eq!(e.rejected.as_deref(), Some("redis"));
    assert_eq!(e.risk.as_deref(), Some("migrations"));
    assert_eq!(e.supersedes.as_deref(), Some("2026-05-01 — old ORM"));
    assert_eq!(e.tags, ["db", "perf"]);
    assert!(e.superseded_by.is_empty());
    assert_eq!(e.raw, block.trim_end());
}

#[test]
fn multiline_fields_round_trip_through_rendering() {
    let tags: Vec<String> = vec![];
    let value = RenderInput {
        date: "2026-05-16",
        title: "t",
        why: "first paragraph\nsecond line\n\nthird paragraph",
        rejected: Some("one\n  **risk:** literal text"),
        risk: Some("first risk\nsecond risk"),
        tags: &tags,
        supersedes: None,
    };
    let block = render_entry_block(&value);
    let entries = parse_entries(&block);
    assert_eq!(entries.len(), 1);
    assert_eq!(
        entries[0].why.as_deref(),
        Some("first paragraph\nsecond line\n\nthird paragraph")
    );
    assert_eq!(entries[0].rejected.as_deref(), Some("one\n  **risk:** literal text"));
    assert_eq!(entries[0].risk.as_deref(), Some("first risk\nsecond risk"));
}

#[test]
fn trailing_spaces_on_a_first_line_do_not_survive_parsing() {
    let tags: Vec<String> = vec![];
    let value = RenderInput {
        date: "2026-05-16",
        title: "t",
        why: "a \nb",
        rejected: None,
        risk: None,
        tags: &tags,
        supersedes: None,
    };
    let entries = parse_entries(&render_entry_block(&value));
    assert_eq!(entries[0].why.as_deref(), Some("a\nb"));
}
