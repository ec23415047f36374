//! Building a storage snapshot from a real directory walk. The walk itself
//! is an outside call whose outcome depends on the disk; everything that is
//! derived from its result — validation, the snapshot, the materialized
//! tree — is verified.

use vstd::prelude::*;
use crate::errors::FsError;
use crate::model::{EntryV, contains_path, is_dir_at, entries_wf, parent_present};
use crate::paths::{is_clean_path, is_clean_string, parent_of, parent_string, eq_str};
use crate::store::{Entry, Storage};
use crate::tree::{Folder, folder_matches};

verus! {

/// Relies on walkdir::WalkDir: walks the tree under `root` depth-first,
/// parents before children, and hands back each entry's path relative to
/// `root` (the root itself as the empty string) with a directory flag; or
/// nothing when any entry cannot be read, so that no partial snapshot is
/// ever produced. The value depends on what is on disk, so nothing is
/// assumed about it.
#[verifier::external_body]
fn walk_entries(root: &str) -> (r: Option<Vec<(String, bool)>>) {
    let mut out: Vec<(String, bool)> = Vec::new();
    for entry in walkdir::WalkDir::new(root) {
        match entry {
            Ok(d) => {
                let rel = d.path().strip_prefix(root).unwrap_or(d.path());
                out.push((rel.to_string_lossy().into_owned(), d.file_type().is_dir()));
            },
            Err(_) => {
                return None;
            },
        }
    }
    Some(out)
}

/// One walked entry is acceptable at its position: its path is clean, not
/// seen before, and its parent directory (if any) was walked earlier as a
/// directory — the order a depth-first walk guarantees.
pub open spec fn good_walk_entry(list: Seq<(String, bool)>, i: int) -> bool {
    &&& is_clean_path(list[i].0@)
    &&& forall|j: int| 0 <= j < i ==> (#[trigger] list[j].0)@ != list[i].0@
    &&& (parent_of(list[i].0@).len() == 0 || exists|j: int|
        0 <= j < i && (#[trigger] list[j].0)@ == parent_of(list[i].0@) && list[j].1)
}

/// A walked entry list can be validated into a snapshot: every entry with a
/// non-empty path is acceptable at its position.
pub open spec fn good_walk(list: Seq<(String, bool)>) -> bool {
    forall|i: int|
        0 <= i < list.len() && (#[trigger] list[i].0)@.len() > 0 ==> good_walk_entry(list, i)
}

impl Storage {
    /// Validates a walked entry list into a well-formed snapshot: empty
    /// paths (the root) are dropped; an unclean or repeated path, or one
    /// whose parent has not been walked as a directory, rejects the whole
    /// list.
    pub fn from_entries(list: &Vec<(String, bool)>) -> (r: Option<Storage>)
        ensures
            r is Some <==> good_walk(list@),
            match r {
                Some(st) => {
                    &&& st.wf()
                    &&& forall|p: Seq<char>|
                        #[trigger] contains_path(st@, p) ==> exists|i: int|
                            0 <= i < list@.len() && list@[i].0@ == p
                    &&& forall|i: int|
                        0 <= i < list@.len() && (#[trigger] list@[i]).0@.len() > 0 ==> {
                            &&& contains_path(st@, list@[i].0@)
                            &&& (list@[i].1 <==> is_dir_at(st@, list@[i].0@))
                        }
                },
                None => true,
            },
    {
        let n = list.len();
        let mut st = Storage { entries: Vec::new() };
        let ghost mut wit: Seq<int> = Seq::empty();
        let mut k: usize = 0;
        proof {
            assert(st@ =~= Seq::<EntryV>::empty());
        }
        while k < n
            invariant
                k <= n,
                n == list@.len(),
                st.wf(),
                wit.len() == st@.len(),
                forall|m: int|
                    0 <= m < st@.len() ==> 0 <= #[trigger] wit[m] < k && list@[wit[m]].0@
                        == st@[m].path && list@[wit[m]].1 == st@[m].is_dir,
                forall|i: int|
                    0 <= i < k && (#[trigger] list@[i]).0@.len() > 0 ==> contains_path(
                        st@,
                        list@[i].0@,
                    ) && (list@[i].1 <==> is_dir_at(st@, list@[i].0@)),
                forall|i: int|
                    0 <= i < k && (#[trigger] list@[i]).0@.len() > 0 ==> good_walk_entry(
                        list@,
                        i,
                    ),
            decreases n - k,
        {
            let path_len = list[k].0.as_str().unicode_len();
            if path_len > 0 {
                if !is_clean_string(list[k].0.as_str()) {
                    proof {
                        assert(!good_walk_entry(list@, k as int));
                    }
                    return None;
                }
                if let Some(d) = st.lookup(list[k].0.as_str()) {
                    proof {
                        assert(list@[wit[d as int]].0@ == list@[k as int].0@);
                        assert(!good_walk_entry(list@, k as int));
                    }
                    return None;
                }
                let par = parent_string(list[k].0.as_str());
                if par.as_str().unicode_len() > 0 {
                    match st.lookup(par.as_str()) {
                        None => {
                            proof {
                                if good_walk_entry(list@, k as int) {
                                    let j = choose|j: int|
                                        0 <= j < k && (#[trigger] list@[j].0)@ == parent_of(
                                            list@[k as int].0@,
                                        ) && list@[j].1;
                                    assert(parent_of(list@[k as int].0@).len() > 0);
                                    assert(contains_path(st@, list@[j].0@));
                                    assert(false);
                                }
                            }
                            return None;
                        },
                        Some(i) => {
                            if !st.entries[i].is_dir {
                                proof {
                                    if good_walk_entry(list@, k as int) {
                                        let j = choose|j: int|
                                            0 <= j < k && (#[trigger] list@[j].0)@ == parent_of(
                                                list@[k as int].0@,
                                            ) && list@[j].1;
                                        assert(is_dir_at(st@, parent_of(list@[k as int].0@)));
                                        let m = choose|m: int|
                                            0 <= m < st@.len() && st@[m].path == parent_of(
                                                list@[k as int].0@,
                                            ) && st@[m].is_dir;
                                        assert(m == i as int);
                                        assert(false);
                                    }
                                }
                                return None;
                            }
                            proof {
                                assert forall|m: int|
                                    0 <= m < st@.len() && st@[m].path == parent_of(
                                        list@[k as int].0@,
                                    ) implies st@[m].is_dir by {
                                    assert(m == i as int);
                                }
                                assert(is_dir_at(st@, parent_of(list@[k as int].0@)));
                            }
                        },
                    }
                }
                let entry = Entry {
                    path: list[k].0.clone(),
                    is_dir: list[k].1,
                    content: String::new(),
                };
                let ghost pre = st@;
                let ghost pw = wit;
                st.entries.push(entry);
                proof {
                    wit = wit.push(k as int);
                    let x = EntryV {
                        path: list@[k as int].0@,
                        is_dir: list@[k as int].1,
                        content: Seq::empty(),
                    };
                    assert(st@ =~= pre.push(x));
                    crate::model::lemma_push_effect(pre, x);
                    assert forall|m: int| 0 <= m < st@.len() implies parent_present(
                        st@,
                        #[trigger] st@[m].path,
                    ) by {
                        if m < pre.len() {
                            assert(parent_present(pre, pre[m].path));
                        }
                    }
                    assert forall|m: int| 0 <= m < st@.len() implies 0 <= #[trigger] wit[m] < k
                        + 1 && list@[wit[m]].0@ == st@[m].path && list@[wit[m]].1
                        == st@[m].is_dir by {
                        if m < pre.len() {
                            assert(st@[m] == pre[m]);
                            assert(wit[m] == pw[m]);
                        } else {
                            assert(wit[m] == k as int);
                        }
                    }
                    assert forall|i: int|
                        0 <= i < k + 1 && (#[trigger] list@[i]).0@.len() > 0 implies contains_path(
                        st@,
                        list@[i].0@,
                    ) && (list@[i].1 <==> is_dir_at(st@, list@[i].0@)) by {
                        if i < k {
                            assert(contains_path(pre, list@[i].0@));
                        } else {
                            assert(st@[pre.len() as int].path == list@[i].0@);
                        }
                    }
                    // This entry was acceptable: fresh, clean, parent seen.
                    assert forall|i: int|
                        0 <= i < k + 1 && (#[trigger] list@[i]).0@.len() > 0 implies
                        good_walk_entry(list@, i) by {
                        if i == k {
                            assert forall|j: int| 0 <= j < i implies (#[trigger] list@[j].0)@
                                != list@[i].0@ by {
                                if list@[j].0@.len() > 0 {
                                    assert(contains_path(pre, list@[j].0@));
                                } else {
                                    assert(list@[i].0@.len() > 0);
                                }
                            }
                            if parent_of(list@[i].0@).len() > 0 {
                                assert(is_dir_at(pre, parent_of(list@[i].0@)));
                                let m = choose|m: int|
                                    0 <= m < pre.len() && pre[m].path == parent_of(list@[i].0@)
                                        && pre[m].is_dir;
                                assert(list@[pw[m]].0@ == parent_of(list@[i].0@)
                                    && list@[pw[m]].1);
                            }
                        }
                    }
                }
            } else {
                proof {
                    assert forall|i: int|
                        0 <= i < k + 1 && (#[trigger] list@[i]).0@.len() > 0 implies
                        good_walk_entry(list@, i) by {}
                }
            }
            k = k + 1;
        }
        proof {
            assert forall|p: Seq<char>| #[trigger] contains_path(st@, p) implies exists|i: int|
                0 <= i < list@.len() && list@[i].0@ == p by {
                let m = choose|m: int| 0 <= m < st@.len() && st@[m].path == p;
                assert(list@[wit[m]].0@ == p);
            }
        }
        Some(st)
    }

    /// Position of the entry whose path is `path`, if present; a public
    /// lookup over the snapshot.
    pub fn lookup(&self, path: &str) -> (r: Option<usize>)
        ensures
            match r {
                Some(i) => i < self@.len() && self@[i as int].path == path@,
                None => !contains_path(self@, path@),
            },
    {
        let n = self.entries.len();
        let mut k: usize = 0;
        while k < n
            invariant
                k <= n,
                n == self.entries@.len(),
                self@.len() == n,
                forall|j: int| 0 <= j < k ==> self@[j].path != path@,
            decreases n - k,
        {
            if eq_str(self.entries[k].path.as_str(), path) {
                return Some(k);
            }
            k = k + 1;
        }
        None
    }
}

/// Walks the real directory tree under `root` and materializes it as a
/// folder tree: the verified tree builder applied to whatever well-formed
/// snapshot the walk produced. Any unreadable or inconsistent enumeration
/// aborts with `IoError` rather than yielding a partial tree.
pub fn snapshot_folder_tree(root: &str) -> (r: Result<Folder, FsError>)
    ensures
        match r {
            Ok(f) => exists|s: Seq<EntryV>|
                entries_wf(s) && folder_matches(f, s, Seq::<char>::empty()),
            Err(e) => e matches FsError::IoError(_),
        },
{
    match walk_entries(root) {
        None => Err(FsError::IoError(String::from_str("failed to read the storage tree"))),
        Some(list) => match Storage::from_entries(&list) {
            None => Err(
                FsError::IoError(String::from_str("inconsistent directory enumeration")),
            ),
            Some(st) => {
                let f = st.list_all_files();
                proof {
                    assert(entries_wf(st@) && folder_matches(f, st@, Seq::<char>::empty()));
                }
                Ok(f)
            },
        },
    }
}

} // verus!
