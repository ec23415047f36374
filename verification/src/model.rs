//! The mathematical model of the storage tree: a finite sequence of entries,
//! each a clean relative path marked as directory or file, files carrying
//! their text content. Well-formedness asks for distinct paths and for every
//! entry's parent directory to be present (or to be the root).

use vstd::prelude::*;
use crate::paths::{is_clean_path, parent_of, is_ancestor_of};

verus! {

/// One entry of the model: the identifier (relative path), whether it is a
/// directory, and — for files — the text content.
pub struct EntryV {
    pub path: Seq<char>,
    pub is_dir: bool,
    pub content: Seq<char>,
}

pub open spec fn contains_path(s: Seq<EntryV>, p: Seq<char>) -> bool {
    exists|i: int| 0 <= i < s.len() && s[i].path == p
}

pub open spec fn is_dir_at(s: Seq<EntryV>, p: Seq<char>) -> bool {
    exists|i: int| 0 <= i < s.len() && s[i].path == p && s[i].is_dir
}

pub open spec fn is_file_at(s: Seq<EntryV>, p: Seq<char>) -> bool {
    exists|i: int| 0 <= i < s.len() && s[i].path == p && !s[i].is_dir
}

/// The position of the entry with path `p`; meaningful only when
/// `contains_path(s, p)` holds and paths are unique.
pub open spec fn index_of_path(s: Seq<EntryV>, p: Seq<char>) -> int {
    choose|i: int| 0 <= i < s.len() && s[i].path == p
}

/// The text content of the file at `p`.
pub open spec fn content_at(s: Seq<EntryV>, p: Seq<char>) -> Seq<char> {
    s[index_of_path(s, p)].content
}

/// The parent of `p` is the root or a present directory.
pub open spec fn parent_present(s: Seq<EntryV>, p: Seq<char>) -> bool {
    parent_of(p).len() == 0 || is_dir_at(s, parent_of(p))
}

pub open spec fn paths_unique(s: Seq<EntryV>) -> bool {
    forall|i: int, j: int|
        #![trigger s[i].path, s[j].path]
        0 <= i < s.len() && 0 <= j < s.len() && i != j ==> s[i].path != s[j].path
}

pub open spec fn paths_clean(s: Seq<EntryV>) -> bool {
    forall|i: int| 0 <= i < s.len() ==> is_clean_path(#[trigger] s[i].path)
}

pub open spec fn parents_present(s: Seq<EntryV>) -> bool {
    forall|i: int| 0 <= i < s.len() ==> parent_present(s, #[trigger] s[i].path)
}

/// Well-formedness of a storage snapshot.
pub open spec fn entries_wf(s: Seq<EntryV>) -> bool {
    paths_unique(s) && paths_clean(s) && parents_present(s)
}

/// Two snapshots agree about entry `p`.
pub open spec fn node_same(a: Seq<EntryV>, b: Seq<EntryV>, p: Seq<char>) -> bool {
    &&& (is_dir_at(a, p) <==> is_dir_at(b, p))
    &&& (is_file_at(a, p) <==> is_file_at(b, p))
    &&& (is_file_at(a, p) ==> content_at(a, p) == content_at(b, p))
}

/// `p` is the path of the entry at a known position `i`, so the chosen index
/// agrees with `i`.
pub proof fn lemma_entry_at(s: Seq<EntryV>, i: int)
    requires
        paths_unique(s),
        0 <= i < s.len(),
    ensures
        contains_path(s, s[i].path),
        index_of_path(s, s[i].path) == i,
        content_at(s, s[i].path) == s[i].content,
        s[i].is_dir ==> is_dir_at(s, s[i].path),
        !s[i].is_dir ==> is_file_at(s, s[i].path),
{
    assert(contains_path(s, s[i].path));
    let j = index_of_path(s, s[i].path);
    assert(0 <= j < s.len() && s[j].path == s[i].path);
    assert(j == i);
}

/// How pushing a fresh entry changes the model.
pub proof fn lemma_push_effect(s: Seq<EntryV>, x: EntryV)
    requires
        paths_unique(s),
        !contains_path(s, x.path),
    ensures
        paths_unique(s.push(x)),
        forall|p: Seq<char>|
            #[trigger] contains_path(s.push(x), p) <==> (contains_path(s, p) || p == x.path),
        forall|p: Seq<char>|
            #[trigger] is_dir_at(s.push(x), p) <==> (is_dir_at(s, p) || (p == x.path && x.is_dir)),
        forall|p: Seq<char>|
            #[trigger] is_file_at(s.push(x), p) <==> (is_file_at(s, p) || (p == x.path
                && !x.is_dir)),
        content_at(s.push(x), x.path) == x.content,
        forall|p: Seq<char>|
            contains_path(s, p) ==> #[trigger] content_at(s.push(x), p) == content_at(s, p),
{
    let t = s.push(x);
    assert(t[s.len() as int] == x);
    assert forall|p: Seq<char>| #[trigger] contains_path(t, p) implies (contains_path(s, p) || p
        == x.path) by {
        let i = choose|i: int| 0 <= i < t.len() && t[i].path == p;
        if i < s.len() {
            assert(s[i].path == p);
        }
    }
    assert forall|p: Seq<char>| contains_path(s, p) || p == x.path implies #[trigger] contains_path(
        t,
        p,
    ) by {
        if contains_path(s, p) {
            let i = choose|i: int| 0 <= i < s.len() && s[i].path == p;
            assert(t[i].path == p);
        }
    }
    assert forall|p: Seq<char>| #[trigger] is_dir_at(t, p) implies (is_dir_at(s, p) || (p == x.path
        && x.is_dir)) by {
        let i = choose|i: int| 0 <= i < t.len() && t[i].path == p && t[i].is_dir;
        if i < s.len() {
            assert(s[i].path == p && s[i].is_dir);
        }
    }
    assert forall|p: Seq<char>| is_dir_at(s, p) || (p == x.path && x.is_dir) implies
        #[trigger] is_dir_at(t, p) by {
        if is_dir_at(s, p) {
            let i = choose|i: int| 0 <= i < s.len() && s[i].path == p && s[i].is_dir;
            assert(t[i].path == p && t[i].is_dir);
        }
    }
    assert forall|p: Seq<char>| #[trigger] is_file_at(t, p) implies (is_file_at(s, p) || (p
        == x.path && !x.is_dir)) by {
        let i = choose|i: int| 0 <= i < t.len() && t[i].path == p && !t[i].is_dir;
        if i < s.len() {
            assert(s[i].path == p && !s[i].is_dir);
        }
    }
    assert forall|p: Seq<char>| is_file_at(s, p) || (p == x.path && !x.is_dir) implies
        #[trigger] is_file_at(t, p) by {
        if is_file_at(s, p) {
            let i = choose|i: int| 0 <= i < s.len() && s[i].path == p && !s[i].is_dir;
            assert(t[i].path == p && !t[i].is_dir);
        }
    }
    assert(paths_unique(t));
    lemma_entry_at(t, s.len() as int);
    assert forall|p: Seq<char>| contains_path(s, p) implies #[trigger] content_at(t, p)
        == content_at(s, p) by {
        let i = choose|i: int| 0 <= i < s.len() && s[i].path == p;
        lemma_entry_at(s, i);
        lemma_entry_at(t, i);
    }
}

/// How removing the entry at position `i` changes the model.
pub proof fn lemma_remove_effect(s: Seq<EntryV>, i: int)
    requires
        paths_unique(s),
        0 <= i < s.len(),
    ensures
        paths_unique(s.remove(i)),
        forall|p: Seq<char>|
            #[trigger] contains_path(s.remove(i), p) <==> (contains_path(s, p) && p != s[i].path),
        forall|p: Seq<char>|
            #[trigger] is_dir_at(s.remove(i), p) <==> (is_dir_at(s, p) && p != s[i].path),
        forall|p: Seq<char>|
            #[trigger] is_file_at(s.remove(i), p) <==> (is_file_at(s, p) && p != s[i].path),
        forall|p: Seq<char>|
            contains_path(s, p) && p != s[i].path ==> #[trigger] content_at(s.remove(i), p)
                == content_at(s, p),
        paths_clean(s) ==> paths_clean(s.remove(i)),
{
    let t = s.remove(i);
    assert forall|p: Seq<char>| #[trigger] contains_path(t, p) implies (contains_path(s, p) && p
        != s[i].path) by {
        let j = choose|j: int| 0 <= j < t.len() && t[j].path == p;
        if j < i {
            assert(s[j].path == p);
        } else {
            assert(s[j + 1].path == p);
        }
    }
    assert forall|p: Seq<char>| contains_path(s, p) && p != s[i].path implies
        #[trigger] contains_path(t, p) by {
        let j = choose|j: int| 0 <= j < s.len() && s[j].path == p;
        if j < i {
            assert(t[j].path == p);
        } else {
            assert(j > i);
            assert(t[j - 1].path == p);
        }
    }
    assert forall|p: Seq<char>| #[trigger] is_dir_at(t, p) implies (is_dir_at(s, p) && p
        != s[i].path) by {
        let j = choose|j: int| 0 <= j < t.len() && t[j].path == p && t[j].is_dir;
        if j < i {
            assert(s[j].path == p && s[j].is_dir);
        } else {
            assert(s[j + 1].path == p && s[j + 1].is_dir);
        }
    }
    assert forall|p: Seq<char>| is_dir_at(s, p) && p != s[i].path implies #[trigger] is_dir_at(
        t,
        p,
    ) by {
        let j = choose|j: int| 0 <= j < s.len() && s[j].path == p && s[j].is_dir;
        if j < i {
            assert(t[j].path == p && t[j].is_dir);
        } else {
            assert(t[j - 1].path == p && t[j - 1].is_dir);
        }
    }
    assert forall|p: Seq<char>| #[trigger] is_file_at(t, p) implies (is_file_at(s, p) && p
        != s[i].path) by {
        let j = choose|j: int| 0 <= j < t.len() && t[j].path == p && !t[j].is_dir;
        if j < i {
            assert(s[j].path == p && !s[j].is_dir);
        } else {
            assert(s[j + 1].path == p && !s[j + 1].is_dir);
        }
    }
    assert forall|p: Seq<char>| is_file_at(s, p) && p != s[i].path implies #[trigger] is_file_at(
        t,
        p,
    ) by {
        let j = choose|j: int| 0 <= j < s.len() && s[j].path == p && !s[j].is_dir;
        if j < i {
            assert(t[j].path == p && !t[j].is_dir);
        } else {
            assert(t[j - 1].path == p && !t[j - 1].is_dir);
        }
    }
    assert forall|p: Seq<char>|
        contains_path(s, p) && p != s[i].path implies #[trigger] content_at(t, p)
        == content_at(s, p) by {
        let j = choose|j: int| 0 <= j < s.len() && s[j].path == p;
        lemma_entry_at(s, j);
        if j < i {
            lemma_entry_at(t, j);
        } else {
            assert(t[j - 1] == s[j]);
            lemma_entry_at(t, j - 1);
        }
    }
    assert forall|j: int| 0 <= j < t.len() implies is_clean_path(#[trigger] t[j].path) || !(
    paths_clean(s)) by {
        if j < i {
            assert(t[j] == s[j]);
        } else {
            assert(t[j] == s[j + 1]);
        }
    }
}

/// The longest path length occurring in the snapshot; the recursion measure
/// of the tree builder.
pub open spec fn max_path_len(s: Seq<EntryV>) -> nat
    decreases s.len(),
{
    if s.len() == 0 {
        0
    } else if s.last().path.len() > max_path_len(s.drop_last()) {
        s.last().path.len()
    } else {
        max_path_len(s.drop_last())
    }
}

pub proof fn lemma_max_path_len(s: Seq<EntryV>, i: int)
    requires
        0 <= i < s.len(),
    ensures
        s[i].path.len() <= max_path_len(s),
    decreases s.len(),
{
    if i == s.len() - 1 {
    } else {
        lemma_max_path_len(s.drop_last(), i);
    }
}

/// The number of directory entries in the snapshot.
pub open spec fn count_dirs(s: Seq<EntryV>) -> nat
    decreases s.len(),
{
    if s.len() == 0 {
        0
    } else if s.last().is_dir {
        count_dirs(s.drop_last()) + 1
    } else {
        count_dirs(s.drop_last())
    }
}

/// The number of file entries in the snapshot.
pub open spec fn count_files(s: Seq<EntryV>) -> nat
    decreases s.len(),
{
    if s.len() == 0 {
        0
    } else if s.last().is_dir {
        count_files(s.drop_last())
    } else {
        count_files(s.drop_last()) + 1
    }
}

/// Snapshots of equal length whose entries agree position by position on
/// the directory flag hold the same number of directories and of files.
pub proof fn lemma_counts_pointwise(a: Seq<EntryV>, b: Seq<EntryV>)
    requires
        a.len() == b.len(),
        forall|i: int| 0 <= i < a.len() ==> a[i].is_dir == b[i].is_dir,
    ensures
        count_dirs(a) == count_dirs(b),
        count_files(a) == count_files(b),
    decreases a.len(),
{
    if a.len() > 0 {
        assert forall|i: int| 0 <= i < a.drop_last().len() implies a.drop_last()[i].is_dir
            == b.drop_last()[i].is_dir by {
            assert(a.drop_last()[i] == a[i]);
            assert(b.drop_last()[i] == b[i]);
        }
        assert(a.last().is_dir == b.last().is_dir);
        lemma_counts_pointwise(a.drop_last(), b.drop_last());
    }
}

} // verus!

