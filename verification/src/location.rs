//! Where the logbook lives when no path is given: the nearest `logbook.md`
//! up to the repository root, else one at that root or in the current
//! directory.
use vstd::prelude::*;

verus! {

/// What is known of one directory on the way up from the current one.
pub struct DirMarkers {
    /// It holds a `.git` entry.
    pub has_git: bool,
    /// It holds a regular file named `logbook.md`.
    pub has_logbook: bool,
}

/// The directory, counted from the current one upward, whose `logbook.md`
/// is used.
#[derive(Debug, Clone, Copy, PartialEq, Eq, Structural)]
pub enum LogbookPick {
    /// An existing `logbook.md` in this directory.
    Found(usize),
    /// No `logbook.md` was found: a new one belongs in this directory.
    Fallback(usize),
}

/// The nearest directory at or above the current one that is a repository root.
pub open spec fn first_git(dirs: Seq<DirMarkers>) -> Option<int> {
    if exists|i: int| 0 <= i < dirs.len() && (#[trigger] dirs[i]).has_git {
        Some(choose|i: int| 0 <= i < dirs.len() && (#[trigger] dirs[i]).has_git && forall|j: int|
            0 <= j < i ==> !(#[trigger] dirs[j]).has_git)
    } else {
        None
    }
}

/// The last directory searched: the repository root, or the top.
pub open spec fn search_end(dirs: Seq<DirMarkers>) -> int {
    match first_git(dirs) {
        Some(g) => g,
        None => dirs.len() - 1,
    }
}

/// Where the logbook is: the nearest directory up to the repository root
/// that holds one, else the repository root, else the current directory.
pub open spec fn pick_spec(dirs: Seq<DirMarkers>) -> LogbookPick {
    let end = search_end(dirs);
    if exists|i: int| 0 <= i <= end && (#[trigger] dirs[i]).has_logbook {
        LogbookPick::Found(
            (choose|i: int|
                0 <= i <= end && (#[trigger] dirs[i]).has_logbook && forall|j: int|
                    0 <= j < i ==> !(#[trigger] dirs[j]).has_logbook) as usize,
        )
    } else {
        match first_git(dirs) {
            Some(g) => LogbookPick::Fallback(g as usize),
            None => LogbookPick::Fallback(0),
        }
    }
}

/// Choose the logbook's directory from the markers of the current directory
/// (first) and each of its ancestors in turn.
pub fn pick_logbook(dirs: &[DirMarkers]) -> (r: LogbookPick)
    requires
        dirs@.len() >= 1,
    ensures
        r == pick_spec(dirs@),
{
    let n = dirs.len();
    let mut git: Option<usize> = None;
    let mut g: usize = 0;
    while g < n
        invariant
            n == dirs@.len(),
            g <= n,
            git is None ==> forall|j: int| 0 <= j < g ==> !(#[trigger] dirs@[j]).has_git,
            git matches Some(x) ==> x < n && dirs@[x as int].has_git && forall|j: int|
                0 <= j < x ==> !(#[trigger] dirs@[j]).has_git,
        decreases n - g,
    {
        if git.is_none() && dirs[g].has_git {
            git = Some(g);
        }
        g = g + 1;
    }
    proof {
        match git {
            Some(x) => {
                let c = choose|i: int|
                    0 <= i < dirs@.len() && (#[trigger] dirs@[i]).has_git && forall|j: int|
                        0 <= j < i ==> !(#[trigger] dirs@[j]).has_git;
                assert(dirs@[x as int].has_git);
                if c < x {
                } else if c > x {
                    assert(!dirs@[x as int].has_git);
                }
                assert(first_git(dirs@) == Some(x as int));
            },
            None => {
                assert(first_git(dirs@) is None);
            },
        }
    }
    let end: usize = match git {
        Some(x) => x,
        None => n - 1,
    };
    let mut i: usize = 0;
    while i <= end
        invariant
            end < n,
            n == dirs@.len(),
            end == search_end(dirs@),
            i <= end + 1,
            forall|j: int| 0 <= j < i ==> !(#[trigger] dirs@[j]).has_logbook,
        decreases end + 1 - i,
    {
        if dirs[i].has_logbook {
            proof {
                let c = choose|k: int|
                    0 <= k <= end && (#[trigger] dirs@[k]).has_logbook && forall|j: int|
                        0 <= j < k ==> !(#[trigger] dirs@[j]).has_logbook;
                assert(dirs@[i as int].has_logbook);
                if c < i {
                } else if c > i {
                    assert(!dirs@[i as int].has_logbook);
                }
            }
            return LogbookPick::Found(i);
        }
        i = i + 1;
    }
    match git {
        Some(x) => LogbookPick::Fallback(x),
        None => LogbookPick::Fallback(0),
    }
}

proof fn lemma_min_logbook(dirs: Seq<DirMarkers>, k: int)
    requires
        0 <= k < dirs.len(),
        dirs[k].has_logbook,
    ensures
        exists|i: int|
            0 <= i <= k && (#[trigger] dirs[i]).has_logbook && forall|j: int|
                0 <= j < i ==> !(#[trigger] dirs[j]).has_logbook,
    decreases k,
{
    if exists|j: int| 0 <= j < k && (#[trigger] dirs[j]).has_logbook {
        let j = choose|j: int| 0 <= j < k && (#[trigger] dirs[j]).has_logbook;
        lemma_min_logbook(dirs, j);
    } else {
        assert(dirs[k].has_logbook);
    }
}

proof fn lemma_min_git(dirs: Seq<DirMarkers>, k: int)
    requires
        0 <= k < dirs.len(),
        dirs[k].has_git,
    ensures
        exists|i: int|
            0 <= i <= k && (#[trigger] dirs[i]).has_git && forall|j: int|
                0 <= j < i ==> !(#[trigger] dirs[j]).has_git,
    decreases k,
{
    if exists|j: int| 0 <= j < k && (#[trigger] dirs[j]).has_git {
        let j = choose|j: int| 0 <= j < k && (#[trigger] dirs[j]).has_git;
        lemma_min_git(dirs, j);
    } else {
        assert(dirs[k].has_git);
    }
}

/// The logbook used is the one in the first directory, going up from the
/// current one and stopping at the nearest repository root, that holds a
/// `logbook.md`; when none does, a new one belongs at that root, or in the
/// current directory outside any repository.
pub proof fn lemma_pick_rule(dirs: Seq<DirMarkers>)
    requires
        1 <= dirs.len() <= usize::MAX,
    ensures
        match pick_spec(dirs) {
            LogbookPick::Found(i) => i < dirs.len() && dirs[i as int].has_logbook && forall|j: int|
                0 <= j < i ==> !(#[trigger] dirs[j]).has_logbook && !dirs[j].has_git,
            LogbookPick::Fallback(g) => g < dirs.len() && (forall|j: int|
                0 <= j <= g ==> !(#[trigger] dirs[j]).has_logbook) && (forall|j: int|
                0 <= j < g ==> !(#[trigger] dirs[j]).has_git) && (dirs[g as int].has_git || (g
                == 0 && forall|j: int|
                0 <= j < dirs.len() ==> !(#[trigger] dirs[j]).has_git && !dirs[j].has_logbook)),
        },
{
    if exists|i: int| 0 <= i < dirs.len() && (#[trigger] dirs[i]).has_git {
        let k = choose|i: int| 0 <= i < dirs.len() && (#[trigger] dirs[i]).has_git;
        lemma_min_git(dirs, k);
    }
    let end = search_end(dirs);
    assert(0 <= end < dirs.len());
    assert(forall|j: int| 0 <= j < end ==> !(#[trigger] dirs[j]).has_git);
    if exists|i: int| 0 <= i <= end && (#[trigger] dirs[i]).has_logbook {
        let k = choose|i: int| 0 <= i <= end && (#[trigger] dirs[i]).has_logbook;
        lemma_min_logbook(dirs, k);
        let i = choose|i: int|
            0 <= i <= end && (#[trigger] dirs[i]).has_logbook && forall|j: int|
                0 <= j < i ==> !(#[trigger] dirs[j]).has_logbook;
        assert(pick_spec(dirs) == LogbookPick::Found(i as usize));
    } else {
        match first_git(dirs) {
            Some(g) => {
                assert(pick_spec(dirs) == LogbookPick::Fallback(g as usize));
                assert(dirs[g].has_git);
            },
            None => {
                assert(pick_spec(dirs) == LogbookPick::Fallback(0));
                assert(end == dirs.len() - 1);
            },
        }
    }
}

} // verus!
