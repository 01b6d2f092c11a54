use logbook::editor::{editor_reason, resolve_editor_from, split_editor_command, strip_comments};
use logbook::Error;

#[test]
fn strip_comments_handles_comments_whitespace_and_inline_hashes() {
    assert_eq!(strip_comments("real\n# nope\nmore"), "real\nmore");
    assert_eq!(strip_comments("\n  # indented comment\nbody\n\n"), "body");
    assert_eq!(strip_comments("# a\n#b\n   # c"), "");
    assert_eq!(strip_comments("uses C#  and F#"), "uses C#  and F#");
}

#[test]
fn editor_command_supports_quoted_paths_and_arguments() {
    assert_eq!(
        split_editor_command(r#""C:\Program Files\Editor\edit.exe" --wait"#).unwrap(),
        [r"C:\Program Files\Editor\edit.exe", "--wait"]
    );
    assert!(split_editor_command("\"unterminated").is_err());
}

#[test]
fn resolve_editor_prefers_editor_over_visual() {
    let chosen = resolve_editor_from(Some("ed-cmd".to_string()), Some("vis-cmd".to_string()));
    assert_eq!(chosen.unwrap(), "ed-cmd");
}

#[test]
fn resolve_editor_falls_back_to_visual() {
    let chosen = resolve_editor_from(None, Some("vis-only".to_string()));
    assert_eq!(chosen.unwrap(), "vis-only");
}

#[test]
fn resolve_editor_errors_when_neither_set() {
    assert!(matches!(resolve_editor_from(None, None), Err(Error::NoEditor)));
}

#[test]
fn resolve_editor_skips_a_blank_editor() {
    let chosen = resolve_editor_from(Some("   ".to_string()), Some("vis".to_string()));
    assert_eq!(chosen.unwrap(), "vis");
    assert!(matches!(
        resolve_editor_from(Some(" ".to_string()), Some("\t".to_string())),
        Err(Error::NoEditor)
    ));
}

#[test]
fn split_editor_command_reports_each_error() {
    match split_editor_command("vi 'open") {
        Err(Error::Editor(m)) => assert_eq!(m, "unclosed quote in editor command"),
        _ => panic!("expected an unclosed quote error"),
    }
    match split_editor_command("   ") {
        Err(Error::Editor(m)) => assert_eq!(m, "empty editor command"),
        _ => panic!("expected an empty command error"),
    }
    assert_eq!(
        split_editor_command("code  --wait 'a b'c").unwrap(),
        ["code", "--wait", "a bc"]
    );
    assert!(matches!(split_editor_command("''"), Err(Error::Editor(_))));
}

#[test]
fn editor_reason_trims_the_captured_text() {
    assert_eq!(editor_reason("the reason\n").unwrap(), "the reason");
}

#[test]
fn editor_reason_of_comments_only_is_empty_entry() {
    assert!(matches!(
        editor_reason("\n# Write the WHY for this decision above\n"),
        Err(Error::EmptyEntry)
    ));
}
