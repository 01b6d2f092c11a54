use logbook::color::{colorize_block, should_colorize, ColorChoice};

const BOLD_CYAN: &str = "\x1b[1;36m";
const BOLD: &str = "\x1b[1m";
const RESET: &str = "\x1b[0m";

#[test]
fn color_policy_covers_auto_and_overrides() {
    assert!(!should_colorize(ColorChoice::Auto, false, false));
    assert!(should_colorize(ColorChoice::Auto, true, false));
    assert!(!should_colorize(ColorChoice::Auto, true, true));
    assert!(should_colorize(ColorChoice::Always, false, true));
    assert!(!should_colorize(ColorChoice::Never, true, false));
}

#[test]
fn colorizes_headers_and_labels_only() {
    let raw = "## 2026-05-16 — t\n**why:** w\nplain body line\n";
    let out = colorize_block(raw);
    assert!(out.contains("\x1b[1;36m## 2026-05-16 — t\x1b[0m"));
    assert!(out.contains("\x1b[1m**why:**\x1b[0m w"));
    assert!(out.contains("\nplain body line\n"));
    assert!(out.ends_with('\n'));
}

#[test]
fn removing_ansi_recovers_the_input() {
    let raw = "## 2026-05-16 — t\n**why:** w\n**rejected:** redis\n";
    let stripped = colorize_block(raw)
        .replace(BOLD_CYAN, "")
        .replace(BOLD, "")
        .replace(RESET, "");
    assert_eq!(stripped, raw);
}

#[test]
fn colorize_styles_the_heading_and_every_field_label() {
    let raw = "## 2026-01-02 — new\n**why:** b\n**supersedes:** 2026-01-01 — old\n**tags:** x";
    let out = colorize_block(raw);
    assert_eq!(
        out,
        "\x1b[1;36m## 2026-01-02 — new\x1b[0m\n\x1b[1m**why:**\x1b[0m b\n\x1b[1m**supersedes:**\x1b[0m 2026-01-01 — old\n\x1b[1m**tags:**\x1b[0m x"
    );
}

#[test]
fn colorize_leaves_an_indented_label_plain() {
    let raw = "## 2026-01-02 — new\n  **why:** indented\n";
    assert_eq!(
        colorize_block(raw),
        "\x1b[1;36m## 2026-01-02 — new\x1b[0m\n  **why:** indented\n"
    );
}
