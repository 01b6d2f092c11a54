use logbook::commands::{
    finish_why, normalized_tags, recheck_new_entry, reject_duplicate_reference, supersede_target,
    validate_date_arg, validated_body, validated_new_date, validated_title,
};
use logbook::store::{appended_text, render_entry_block, RenderInput};
use logbook::parse::parse_entries;
use logbook::Error;

fn invalid_entry(r: Result<impl std::fmt::Debug, Error>) -> String {
    match r {
        Err(Error::InvalidEntry(m)) => m,
        other => panic!("expected an invalid entry, got {other:?}"),
    }
}

#[test]
fn titles_are_trimmed_and_must_fit_on_one_line() {
    assert_eq!(validated_title("  use ORM \n".to_string()).unwrap(), "use ORM");
    assert_eq!(invalid_entry(validated_title("   ".to_string())), "title cannot be empty");
    assert_eq!(
        invalid_entry(validated_title("two\nlines".to_string())),
        "title must fit on one line"
    );
    assert_eq!(
        invalid_entry(validated_title("a\rb".to_string())),
        "title must fit on one line"
    );
}

#[test]
fn add_accepts_a_real_override_date_and_rejects_impossible_dates() {
    assert_eq!(validated_new_date("2024-02-29".to_string()).unwrap(), "2024-02-29");
    match validated_new_date("2023-02-29".to_string()) {
        Err(Error::BadDate { flag, value }) => {
            assert_eq!(flag, "date");
            assert_eq!(value, "2023-02-29");
        }
        other => panic!("expected a bad date, got {other:?}"),
    }
    assert!(matches!(
        validate_date_arg("since", "banana"),
        Err(Error::BadDate { .. })
    ));
    assert!(validate_date_arg("until", "2026-02-28").is_ok());
}

#[test]
fn today_is_a_real_date() {
    let date = chrono::Local::now().format("%Y-%m-%d").to_string();
    assert_eq!(validated_new_date(date.clone()).unwrap(), date);
    assert!(logbook::is_valid_date(&date));
}

#[test]
fn tags_are_trimmed_checked_and_deduplicated_ignoring_case() {
    let tags = vec![" Refactor ".to_string(), "perf".to_string(), "REFACTOR".to_string()];
    assert_eq!(normalized_tags(tags).unwrap(), ["Refactor", "perf"]);
    assert_eq!(
        invalid_entry(normalized_tags(vec!["ok".to_string(), "  ".to_string()])),
        "tags cannot be empty"
    );
    assert_eq!(
        invalid_entry(normalized_tags(vec!["a,b".to_string()])),
        "tags cannot contain commas or newlines"
    );
    assert!(normalized_tags(vec![]).unwrap().is_empty());
}

#[test]
fn add_rejects_a_duplicate_dated_title() {
    let entries = parse_entries("## 2026-01-01 — same decision\n**why:** first\n");
    match reject_duplicate_reference(&entries, "2026-01-01", "same decision") {
        Err(Error::DuplicateDecision(r)) => assert_eq!(r, "2026-01-01 — same decision"),
        other => panic!("expected a duplicate, got {other:?}"),
    }
    assert!(reject_duplicate_reference(&entries, "2026-01-02", "same decision").is_ok());
    assert!(reject_duplicate_reference(&entries, "2026-01-01", "other").is_ok());
}

#[test]
fn body_fields_reject_structural_lines_without_writing() {
    let m = invalid_entry(validated_body("--risk", "opening\n**tags:** injected"));
    assert_eq!(
        m,
        "--risk has a line with reserved syntax (an entry heading or a field label); indent that line to keep it as text"
    );
    assert!(m.contains("indent that line"));
    assert!(validated_body("--rejected", "## heading on the first line is fine").is_ok());
    assert!(validated_body("--rejected", "a\n## 2026-01-01 — fake").is_err());
}

#[test]
fn piped_structural_why_is_rejected_without_writing() {
    let m = invalid_entry(finish_why(
        "opening\n**supersedes:** 2026-01-01 — fake\n".to_string(),
    ));
    assert!(m.contains("reserved syntax"));
}

#[test]
fn body_fields_normalize_crlf_and_allow_indented_markers() {
    assert_eq!(
        finish_why("first\r\n  ## literal heading\r\nlast".to_string()).unwrap(),
        "first\n  ## literal heading\nlast"
    );
    assert_eq!(
        validated_body("--rejected", "one\r\n  **risk:** literal text").unwrap(),
        "one\n  **risk:** literal text"
    );
}

#[test]
fn an_empty_why_is_an_empty_entry() {
    assert!(matches!(finish_why(" \n\t ".to_string()), Err(Error::EmptyEntry)));
    assert_eq!(finish_why("  because \n".to_string()).unwrap(), "because");
}

#[test]
fn supersede_picks_the_unique_active_target() {
    let entries = parse_entries("## 2026-01-01 — use ORM\n**why:** convenient\n");
    assert_eq!(
        supersede_target(&entries, "2026-01-01", None).unwrap(),
        "2026-01-01 — use ORM"
    );
    let untitled = parse_entries("## 2026-01-01\n**why:** legacy\n");
    assert_eq!(supersede_target(&untitled, "2026-01-01", None).unwrap(), "2026-01-01");
}

#[test]
fn supersede_requires_old_title_when_a_date_is_ambiguous() {
    let entries = parse_entries(
        "## 2026-01-01 — first\n**why:** a\n\n## 2026-01-01 — second\n**why:** b\n",
    );
    assert!(matches!(
        supersede_target(&entries, "2026-01-01", None),
        Err(Error::SupersedeTargetAmbiguous(d)) if d == "2026-01-01"
    ));
    assert_eq!(
        supersede_target(&entries, "2026-01-01", Some("second")).unwrap(),
        "2026-01-01 — second"
    );
    assert!(matches!(
        supersede_target(&entries, "2026-01-01", Some("third")),
        Err(Error::SupersedeTitleMissing { date, title }) if date == "2026-01-01" && title == "third"
    ));
}

#[test]
fn supersede_missing_target_errors() {
    let entries = parse_entries("## 2026-01-01 — something\n**why:** w\n");
    assert!(matches!(
        supersede_target(&entries, "1999-01-01", None),
        Err(Error::SupersedeTargetMissing(d)) if d == "1999-01-01"
    ));
}

#[test]
fn supersede_rejects_an_already_superseded_decision() {
    let entries = parse_entries(
        "## 2026-01-01 — original\n**why:** a\n\n\
         ## 2026-01-02 — replacement\n**why:** b\n**supersedes:** 2026-01-01 — original\n",
    );
    assert!(matches!(
        supersede_target(&entries, "2026-01-01", None),
        Err(Error::SupersedeTargetInactive(r)) if r == "2026-01-01 — original"
    ));
}

#[test]
fn supersede_appends_entry_linking_to_old_date() {
    let text = "# logbook\n\n## 2026-01-01 — use ORM\n**why:** convenient\n";
    let entries = parse_entries(text);
    let reference = supersede_target(&entries, "2026-01-01", None).unwrap();
    assert_eq!(reference, "2026-01-01 — use ORM");
    let tags: Vec<String> = vec![];
    let block = render_entry_block(&RenderInput {
        date: "2026-02-01",
        title: "drop ORM for raw SQL",
        why: "ORM perf was bad",
        rejected: None,
        risk: None,
        tags: &tags,
        supersedes: Some(&reference),
    });
    assert!(block.contains("**supersedes:** 2026-01-01 — use ORM"));
    let after = parse_entries(&appended_text(text, &block));
    assert_eq!(after.len(), 2);
    assert!(!after[0].is_active());
    assert_eq!(after[0].superseded_by, ["2026-02-01 — drop ORM for raw SQL"]);
    assert!(after[1].is_active());
    assert!(matches!(
        supersede_target(&after, "2026-01-01", None),
        Err(Error::SupersedeTargetInactive(_))
    ));
}

#[test]
fn recheck_refuses_what_became_invalid_under_the_lock() {
    let text = "## 2026-01-01 — original\n**why:** first\n\n\
                ## 2026-02-01 — replacement\n**why:** b\n**supersedes:** 2026-01-01 — original\n";
    assert!(matches!(
        recheck_new_entry(text, "2026-02-01", "replacement", None),
        Err(Error::DuplicateDecision(_))
    ));
    assert!(matches!(
        recheck_new_entry(text, "2026-03-01", "other", Some(("2026-01-01", None))),
        Err(Error::SupersedeTargetInactive(_))
    ));
    assert!(recheck_new_entry(text, "2026-03-01", "other", Some(("2026-02-01", None))).is_ok());
    assert!(recheck_new_entry("", "2026-03-01", "other", None).is_ok());
}

#[test]
fn a_supersession_that_lost_the_race_is_refused_as_already_superseded() {
    let original = "## 2026-01-01 — original\n**why:** first\n\n";
    let reference = supersede_target(&parse_entries(original), "2026-01-01", None).unwrap();
    let block = render_entry_block(&RenderInput {
        date: "2026-02-01",
        title: "replacement",
        why: "from the editor",
        rejected: None,
        risk: None,
        tags: &[],
        supersedes: Some(&reference),
    });
    assert!(recheck_new_entry(original, "2026-02-01", "replacement", Some(("2026-01-01", None))).is_ok());
    let with_winner = appended_text(original, &block);
    match recheck_new_entry(&with_winner, "2026-02-01", "replacement", Some(("2026-01-01", None))) {
        Err(Error::SupersedeTargetInactive(x)) => assert_eq!(x, "2026-01-01 — original"),
        other => panic!("expected the target to be refused as superseded, got {other:?}"),
    }
    assert!(matches!(
        recheck_new_entry(&with_winner, "2026-02-01", "replacement", Some(("2026-02-01", None))),
        Err(Error::DuplicateDecision(_))
    ));
}
