use logbook::location::{pick_logbook, DirMarkers, LogbookPick};

fn dir(has_git: bool, has_logbook: bool) -> DirMarkers {
    DirMarkers { has_git, has_logbook }
}

#[test]
fn discovers_a_logbook_from_a_nested_repository_directory() {
    // src/deep, src, repository root with .git and logbook.md, above.
    let dirs = [dir(false, false), dir(false, false), dir(true, true), dir(false, false)];
    assert_eq!(pick_logbook(&dirs), LogbookPick::Found(2));
}

#[test]
fn defaults_to_the_nearest_git_root_without_crossing_it() {
    // src, repo with .git, parent with a logbook.md of its own.
    let dirs = [dir(false, false), dir(true, false), dir(false, true)];
    assert_eq!(pick_logbook(&dirs), LogbookPick::Fallback(1));
}

#[test]
fn outside_a_repository_the_nearest_logbook_wins() {
    let dirs = [dir(false, false), dir(false, true), dir(false, true)];
    assert_eq!(pick_logbook(&dirs), LogbookPick::Found(1));
    let none = [dir(false, false), dir(false, false)];
    assert_eq!(pick_logbook(&none), LogbookPick::Fallback(0));
}

#[test]
fn a_logbook_below_the_root_is_found_first() {
    let dirs = [dir(false, false), dir(false, true), dir(true, true)];
    assert_eq!(pick_logbook(&dirs), LogbookPick::Found(1));
    let here = [dir(true, true)];
    assert_eq!(pick_logbook(&here), LogbookPick::Found(0));
}
