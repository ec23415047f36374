//! The storage state and its operations. `Storage` mirrors the tree of files
//! and folders under the storage root as plain values; every operation
//! validates its inputs, reports a typed failure, and otherwise performs
//! exactly the mutation its contract states.

use vstd::prelude::*;
use crate::errors::FsError;
use crate::model::{
    EntryV, contains_path, is_dir_at, is_file_at, index_of_path, content_at, parent_present,
    paths_clean, paths_unique, entries_wf, node_same, lemma_entry_at, lemma_push_effect,
    lemma_remove_effect, max_path_len, lemma_max_path_len,
};
use crate::paths::{
    is_clean_path, is_clean_string, parent_of, name_of, parent_string, name_string, ext_ok,
    validate_extension, eq_str, is_ancestor_of,
};
use crate::tree::{FileEntry, Folder, files_match, folder_matches};

verus! {

/// One stored entry: a clean relative path, a directory flag, and — for
/// files — the text content.
pub struct Entry {
    pub path: String,
    pub is_dir: bool,
    pub content: String,
}

impl View for Entry {
    type V = EntryV;

    open spec fn view(&self) -> EntryV {
        EntryV { path: self.path@, is_dir: self.is_dir, content: self.content@ }
    }
}

/// The storage tree as a value: the set of entries currently below the
/// storage root. The root itself is implicit and always present.
pub struct Storage {
    pub entries: Vec<Entry>,
}

impl View for Storage {
    type V = Seq<EntryV>;

    open spec fn view(&self) -> Seq<EntryV> {
        self.entries@.map_values(|e: Entry| e@)
    }
}

/// The entry a successful file creation appends.
pub open spec fn created_entry(name: Seq<char>) -> EntryV {
    EntryV { path: name, is_dir: false, content: Seq::empty() }
}

/// When creating a file at `name` succeeds.
pub open spec fn create_file_ok(s: Seq<EntryV>, name: Seq<char>) -> bool {
    &&& is_clean_path(name)
    &&& ext_ok(name)
    &&& !contains_path(s, name)
    &&& parent_present(s, name)
}

/// Which failure a file creation reports, and exactly when. Existence is
/// checked before the extension, so creating at an occupied path always
/// reports `AlreadyExists`, whatever the name looks like.
pub open spec fn create_file_err(s: Seq<EntryV>, name: Seq<char>, e: FsError) -> bool {
    match e {
        FsError::PathEscapesRoot => !is_clean_path(name),
        FsError::AlreadyExists => is_clean_path(name) && contains_path(s, name),
        FsError::InvalidExtension(_) => is_clean_path(name) && !contains_path(s, name)
            && !ext_ok(name),
        FsError::IoError(_) => is_clean_path(name) && ext_ok(name) && !contains_path(s, name)
            && !parent_present(s, name),
        _ => false,
    }
}

/// When renaming the file `old_name` to `new_name` succeeds.
pub open spec fn rename_file_ok(s: Seq<EntryV>, old_name: Seq<char>, new_name: Seq<char>) -> bool {
    &&& ext_ok(new_name)
    &&& is_clean_path(old_name)
    &&& is_clean_path(new_name)
    &&& is_file_at(s, old_name)
    &&& !contains_path(s, new_name)
    &&& parent_present(s, new_name)
}

/// Which failure a file rename reports, and exactly when. The extension of
/// the new name is validated before anything else, so an invalid extension
/// is reported before any mutation could occur.
pub open spec fn rename_file_err(
    s: Seq<EntryV>,
    old_name: Seq<char>,
    new_name: Seq<char>,
    e: FsError,
) -> bool {
    match e {
        FsError::InvalidExtension(_) => !ext_ok(new_name),
        FsError::PathEscapesRoot => ext_ok(new_name) && (!is_clean_path(old_name)
            || !is_clean_path(new_name)),
        FsError::NotFound => ext_ok(new_name) && is_clean_path(old_name) && is_clean_path(new_name)
            && !is_file_at(s, old_name),
        FsError::AlreadyExists => ext_ok(new_name) && is_clean_path(old_name) && is_clean_path(
            new_name,
        ) && is_file_at(s, old_name) && contains_path(s, new_name),
        FsError::IoError(_) => ext_ok(new_name) && is_clean_path(old_name) && is_clean_path(
            new_name,
        ) && is_file_at(s, old_name) && !contains_path(s, new_name) && !parent_present(
            s,
            new_name,
        ),
        _ => false,
    }
}

/// The state after a successful file rename: the old entry is gone and an
/// entry at the new name carries the old content.
pub open spec fn file_renamed(
    pre: Seq<EntryV>,
    post: Seq<EntryV>,
    old_name: Seq<char>,
    new_name: Seq<char>,
) -> bool {
    post == pre.remove(index_of_path(pre, old_name)).push(
        EntryV { path: new_name, is_dir: false, content: content_at(pre, old_name) },
    )
}

/// The state after a successful content write.
pub open spec fn file_written(
    pre: Seq<EntryV>,
    post: Seq<EntryV>,
    name: Seq<char>,
    content: Seq<char>,
) -> bool {
    post == pre.remove(index_of_path(pre, name)).push(
        EntryV { path: name, is_dir: false, content },
    )
}

/// The state after a successful file deletion.
pub open spec fn file_deleted(pre: Seq<EntryV>, post: Seq<EntryV>, name: Seq<char>) -> bool {
    post == pre.remove(index_of_path(pre, name))
}

impl Storage {
    /// Well-formedness: clean unique paths, every parent present.
    pub open spec fn wf(&self) -> bool {
        entries_wf(self@)
    }

    /// An empty storage tree.
    pub fn new() -> (r: Storage)
        ensures
            r.wf(),
            r@ == Seq::<EntryV>::empty(),
    {
        let r = Storage { entries: Vec::new() };
        proof {
            assert(r@ =~= Seq::<EntryV>::empty());
        }
        r
    }

    /// Position of the entry whose path is `path`, if present.
    fn find_entry(&self, path: &str) -> (r: Option<usize>)
        ensures
            match r {
                Some(i) => i < self@.len() && self@[i as int].path == path@,
                None => !contains_path(self@, path@),
            },
    {
        let n = self.entries.len();
        let mut k: usize = 0;
        while k < n
            invariant
                k <= n,
                n == self.entries@.len(),
                self@.len() == n,
                forall|j: int| 0 <= j < k ==> self@[j].path != path@,
            decreases n - k,
        {
            if eq_str(self.entries[k].path.as_str(), path) {
                return Some(k);
            }
            k = k + 1;
        }
        None
    }

    /// Creates an empty file at the clean relative path `name`, which must
    /// carry an allowed extension, not exist yet, and sit in a present
    /// directory; returns its identifier and final segment.
    pub fn create_file(&mut self, name: &str) -> (r: Result<FileEntry, FsError>)
        requires
            old(self).wf(),
        ensures
            final(self).wf(),
            r is Ok <==> create_file_ok(old(self)@, name@),
            match r {
                Ok(fe) => {
                    &&& final(self)@ == old(self)@.push(created_entry(name@))
                    &&& fe.id@ == name@
                    &&& fe.name@ == name_of(name@)
                },
                Err(e) => final(self)@ == old(self)@ && create_file_err(old(self)@, name@, e),
            },
    {
        if !is_clean_string(name) {
            return Err(FsError::PathEscapesRoot);
        }
        if self.find_entry(name).is_some() {
            return Err(FsError::AlreadyExists);
        }
        if let Err(e) = validate_extension(name) {
            return Err(e);
        }
        let par = parent_string(name);
        if par.as_str().unicode_len() > 0 {
            match self.find_entry(par.as_str()) {
                None => {
                    proof {
                        assert(!is_dir_at(self@, parent_of(name@)));
                    }
                    return Err(
                        FsError::IoError(String::from_str("parent directory does not exist")),
                    );
                },
                Some(i) => {
                    if !self.entries[i].is_dir {
                        proof {
                            assert forall|j: int|
                                0 <= j < self@.len() && self@[j].path == parent_of(name@) implies !(
                                self@[j].is_dir) by {
                                assert(j == i as int);
                            }
                        }
                        return Err(
                            FsError::IoError(String::from_str("parent entry is not a directory")),
                        );
                    }
                    proof {
                        assert(is_dir_at(self@, parent_of(name@)));
                    }
                },
            }
        }
        let fe = FileEntry { id: String::from_str(name), name: name_string(name) };
        let entry = Entry {
            path: String::from_str(name),
            is_dir: false,
            content: String::new(),
        };
        let ghost pre = self@;
        self.entries.push(entry);
        proof {
            assert(self@ =~= pre.push(created_entry(name@)));
            lemma_push_effect(pre, created_entry(name@));
            assert forall|i: int| 0 <= i < self@.len() implies parent_present(
                self@,
                #[trigger] self@[i].path,
            ) by {
                if i < pre.len() {
                    assert(parent_present(pre, pre[i].path));
                }
            }
        }
        Ok(fe)
    }

    /// Reads the full content of the file at `name`.
    pub fn get_file_content(&self, name: &str) -> (r: Result<String, FsError>)
        requires
            self.wf(),
        ensures
            r is Ok <==> is_clean_path(name@) && is_file_at(self@, name@),
            match r {
                Ok(c) => c@ == content_at(self@, name@),
                Err(e) => match e {
                    FsError::PathEscapesRoot => !is_clean_path(name@),
                    FsError::NotFound => is_clean_path(name@) && !is_file_at(self@, name@),
                    _ => false,
                },
            },
    {
        if !is_clean_string(name) {
            return Err(FsError::PathEscapesRoot);
        }
        match self.find_entry(name) {
            None => {
                proof {
                    assert(!is_file_at(self@, name@));
                }
                Err(FsError::NotFound)
            },
            Some(i) => {
                if self.entries[i].is_dir {
                    proof {
                        assert forall|j: int|
                            0 <= j < self@.len() && self@[j].path == name@ implies self@[j].is_dir by {
                            assert(j == i as int);
                        }
                    }
                    Err(FsError::NotFound)
                } else {
                    proof {
                        lemma_entry_at(self@, i as int);
                    }
                    Ok(self.entries[i].content.clone())
                }
            },
        }
    }

    /// Overwrites the content of the pre-existing file at `name`; writing
    /// never creates a file.
    pub fn save_file_content(&mut self, name: &str, content: &str) -> (r: Result<(), FsError>)
        requires
            old(self).wf(),
        ensures
            final(self).wf(),
            r is Ok <==> is_clean_path(name@) && is_file_at(old(self)@, name@),
            match r {
                Ok(()) => {
                    &&& file_written(old(self)@, final(self)@, name@, content@)
                    &&& is_file_at(final(self)@, name@)
                    &&& content_at(final(self)@, name@) == content@
                    &&& forall|p: Seq<char>|
                        #[trigger] contains_path(final(self)@, p) <==> contains_path(old(self)@, p)
                    &&& forall|p: Seq<char>|
                        contains_path(old(self)@, p) && p != name@ ==> #[trigger] node_same(
                            old(self)@,
                            final(self)@,
                            p,
                        )
                },
                Err(e) => final(self)@ == old(self)@ && match e {
                    FsError::PathEscapesRoot => !is_clean_path(name@),
                    FsError::NotFound => is_clean_path(name@) && !is_file_at(old(self)@, name@),
                    _ => false,
                },
            },
    {
        if !is_clean_string(name) {
            return Err(FsError::PathEscapesRoot);
        }
        let found = self.find_entry(name);
        match found {
            None => {
                proof {
                    assert(!is_file_at(self@, name@));
                }
                Err(FsError::NotFound)
            },
            Some(i) => {
                if self.entries[i].is_dir {
                    proof {
                        assert forall|j: int|
                            0 <= j < self@.len() && self@[j].path == name@ implies self@[j].is_dir by {
                            assert(j == i as int);
                        }
                    }
                    return Err(FsError::NotFound);
                }
                let ghost pre = self@;
                proof {
                    lemma_entry_at(pre, i as int);
                }
                self.entries.remove(i);
                let entry = Entry {
                    path: String::from_str(name),
                    is_dir: false,
                    content: String::from_str(content),
                };
                self.entries.push(entry);
                proof {
                    let x = EntryV { path: name@, is_dir: false, content: content@ };
                    assert(self@ =~= pre.remove(i as int).push(x));
                    lemma_remove_effect(pre, i as int);
                    lemma_push_effect(pre.remove(i as int), x);
                    lemma_write_like_wf(pre, self@, i as int, x);
                }
                Ok(())
            },
        }
    }

    /// Deletes the file at `name`.
    pub fn delete_file(&mut self, name: &str) -> (r: Result<(), FsError>)
        requires
            old(self).wf(),
        ensures
            final(self).wf(),
            r is Ok <==> is_clean_path(name@) && is_file_at(old(self)@, name@),
            match r {
                Ok(()) => {
                    &&& file_deleted(old(self)@, final(self)@, name@)
                    &&& forall|p: Seq<char>|
                        #[trigger] contains_path(final(self)@, p) <==> contains_path(old(self)@, p) && p
                            != name@
                    &&& forall|p: Seq<char>|
                        contains_path(final(self)@, p) ==> #[trigger] node_same(old(self)@, final(self)@, p)
                },
                Err(e) => final(self)@ == old(self)@ && match e {
                    FsError::PathEscapesRoot => !is_clean_path(name@),
                    FsError::NotFound => is_clean_path(name@) && !is_file_at(old(self)@, name@),
                    _ => false,
                },
            },
    {
        if !is_clean_string(name) {
            return Err(FsError::PathEscapesRoot);
        }
        match self.find_entry(name) {
            None => {
                proof {
                    assert(!is_file_at(self@, name@));
                }
                Err(FsError::NotFound)
            },
            Some(i) => {
                if self.entries[i].is_dir {
                    proof {
                        assert forall|j: int|
                            0 <= j < self@.len() && self@[j].path == name@ implies self@[j].is_dir by {
                            assert(j == i as int);
                        }
                    }
                    return Err(FsError::NotFound);
                }
                let ghost pre = self@;
                proof {
                    lemma_entry_at(pre, i as int);
                }
                self.entries.remove(i);
                proof {
                    assert(self@ =~= pre.remove(i as int));
                    lemma_remove_effect(pre, i as int);
                    assert(!is_dir_at(pre, name@));
                    assert forall|k: int| 0 <= k < self@.len() implies parent_present(
                        self@,
                        #[trigger] self@[k].path,
                    ) by {
                        let p = self@[k].path;
                        assert(contains_path(self@, p));
                        assert(contains_path(pre, p));
                        let j = choose|j: int| 0 <= j < pre.len() && pre[j].path == p;
                        assert(parent_present(pre, p));
                        if parent_of(p).len() > 0 {
                            assert(is_dir_at(pre, parent_of(p)));
                            assert(parent_of(p) != name@);
                        }
                    }
                }
                Ok(())
            },
        }
    }

    /// Renames (or moves) the file `old_name` to `new_name`, validating the
    /// new name's extension before anything else; the content moves along.
    pub fn modify_file(&mut self, old_name: &str, new_name: &str) -> (r: Result<
        FileEntry,
        FsError,
    >)
        requires
            old(self).wf(),
        ensures
            final(self).wf(),
            r is Ok <==> rename_file_ok(old(self)@, old_name@, new_name@),
            match r {
                Ok(fe) => {
                    &&& file_renamed(old(self)@, final(self)@, old_name@, new_name@)
                    &&& fe.id@ == new_name@
                    &&& fe.name@ == name_of(new_name@)
                    &&& is_file_at(final(self)@, new_name@)
                    &&& content_at(final(self)@, new_name@) == content_at(old(self)@, old_name@)
                    &&& forall|p: Seq<char>|
                        #[trigger] contains_path(final(self)@, p) <==> ((contains_path(old(self)@, p) && p
                            != old_name@) || p == new_name@)
                    &&& forall|p: Seq<char>|
                        contains_path(old(self)@, p) && p != old_name@ && p != new_name@
                            ==> #[trigger] node_same(old(self)@, final(self)@, p)
                },
                Err(e) => final(self)@ == old(self)@ && rename_file_err(
                    old(self)@,
                    old_name@,
                    new_name@,
                    e,
                ),
            },
    {
        if let Err(e) = validate_extension(new_name) {
            return Err(e);
        }
        if !is_clean_string(old_name) || !is_clean_string(new_name) {
            return Err(FsError::PathEscapesRoot);
        }
        let found = self.find_entry(old_name);
        let i = match found {
            None => {
                proof {
                    assert(!is_file_at(self@, old_name@));
                }
                return Err(FsError::NotFound);
            },
            Some(i) => i,
        };
        if self.entries[i].is_dir {
            proof {
                assert forall|j: int|
                    0 <= j < self@.len() && self@[j].path == old_name@ implies self@[j].is_dir by {
                    assert(j == i as int);
                }
            }
            return Err(FsError::NotFound);
        }
        if self.find_entry(new_name).is_some() {
            return Err(FsError::AlreadyExists);
        }
        let par = parent_string(new_name);
        if par.as_str().unicode_len() > 0 {
            match self.find_entry(par.as_str()) {
                None => {
                    proof {
                        assert(!is_dir_at(self@, parent_of(new_name@)));
                    }
                    return Err(
                        FsError::IoError(String::from_str("target directory does not exist")),
                    );
                },
                Some(j) => {
                    if !self.entries[j].is_dir {
                        proof {
                            assert forall|k: int|
                                0 <= k < self@.len() && self@[k].path == parent_of(
                                    new_name@,
                                ) implies !(self@[k].is_dir) by {
                                assert(k == j as int);
                            }
                        }
                        return Err(
                            FsError::IoError(String::from_str("target parent is not a directory")),
                        );
                    }
                    proof {
                        assert(is_dir_at(self@, parent_of(new_name@)));
                    }
                },
            }
        }
        let ghost pre = self@;
        proof {
            lemma_entry_at(pre, i as int);
        }
        let removed = self.entries.remove(i);
        let entry = Entry {
            path: String::from_str(new_name),
            is_dir: false,
            content: removed.content,
        };
        self.entries.push(entry);
        let fe = FileEntry { id: String::from_str(new_name), name: name_string(new_name) };
        proof {
            let x = EntryV { path: new_name@, is_dir: false, content: content_at(pre, old_name@) };
            assert(self@ =~= pre.remove(i as int).push(x));
            lemma_remove_effect(pre, i as int);
            lemma_push_effect(pre.remove(i as int), x);
            lemma_rename_file_wf(pre, self@, i as int, x);
        }
        Ok(fe)
    }
}

/// After removing the file at position `i` of a well-formed snapshot and
/// pushing a file entry `x` whose path is clean, absent and whose parent is
/// present, the snapshot is well-formed again.
proof fn lemma_write_like_wf(pre: Seq<EntryV>, post: Seq<EntryV>, i: int, x: EntryV)
    requires
        entries_wf(pre),
        0 <= i < pre.len(),
        !pre[i].is_dir,
        !x.is_dir,
        is_clean_path(x.path),
        parent_present(pre, x.path),
        !contains_path(pre.remove(i), x.path),
        post == pre.remove(i).push(x),
    ensures
        entries_wf(post),
{
    lemma_remove_effect(pre, i);
    lemma_push_effect(pre.remove(i), x);
    let mid = pre.remove(i);
    assert(paths_unique(post));
    assert forall|k: int| 0 <= k < post.len() implies is_clean_path(#[trigger] post[k].path) by {
        if k < mid.len() {
            assert(post[k] == mid[k]);
            assert(paths_clean(mid));
        } else {
            assert(post[k] == x);
        }
    }
    assert(!is_dir_at(pre, pre[i].path));
    assert forall|k: int| 0 <= k < post.len() implies parent_present(
        post,
        #[trigger] post[k].path,
    ) by {
        let p = post[k].path;
        if parent_of(p).len() > 0 {
            if k < mid.len() {
                assert(contains_path(pre, p));
                assert(parent_present(pre, p));
                assert(is_dir_at(pre, parent_of(p)));
                assert(parent_of(p) != pre[i].path);
                assert(is_dir_at(mid, parent_of(p)));
                assert(is_dir_at(post, parent_of(p)));
            } else {
                assert(post[k] == x);
                assert(is_dir_at(pre, parent_of(x.path)));
                assert(parent_of(x.path) != pre[i].path);
                assert(is_dir_at(mid, parent_of(x.path)));
                assert(is_dir_at(post, parent_of(x.path)));
            }
        }
    }
}

/// The child-directory paths `ds` are exactly the directories of snapshot
/// `s` directly inside `prefix`, without duplicates.
pub open spec fn dirs_match(ds: Seq<String>, s: Seq<EntryV>, prefix: Seq<char>) -> bool {
    &&& forall|i: int|
        0 <= i < ds.len() ==> is_dir_at(s, #[trigger] ds[i]@) && parent_of(ds[i]@) == prefix
    &&& forall|i: int, j: int|
        #![trigger ds[i], ds[j]]
        0 <= i < ds.len() && 0 <= j < ds.len() && i != j ==> ds[i]@ != ds[j]@
    &&& forall|k: int|
        0 <= k < s.len() && s[k].is_dir && parent_of(#[trigger] s[k].path) == prefix ==> exists|
            i: int,
        | 0 <= i < ds.len() && ds[i]@ == s[k].path
}

impl Storage {
    /// The files directly inside the directory `prefix`.
    fn child_files(&self, prefix: &str) -> (r: Vec<FileEntry>)
        requires
            self.wf(),
        ensures
            files_match(r@, self@, prefix@),
    {
        let n = self.entries.len();
        let mut out: Vec<FileEntry> = Vec::new();
        let ghost mut wit: Seq<int> = Seq::empty();
        let mut k: usize = 0;
        while k < n
            invariant
                k <= n,
                n == self.entries@.len(),
                self@.len() == n,
                self.wf(),
                forall|i: int|
                    0 <= i < out@.len() ==> is_file_at(self@, #[trigger] out@[i].id@) && parent_of(
                        out@[i].id@,
                    ) == prefix@ && out@[i].name@ == name_of(out@[i].id@),
                wit.len() == out@.len(),
                forall|i: int|
                    0 <= i < out@.len() ==> 0 <= #[trigger] wit[i] < k && self@[wit[i]].path
                        == out@[i].id@,
                forall|i1: int, i2: int|
                    #![trigger wit[i1], wit[i2]]
                    0 <= i1 < i2 < wit.len() ==> wit[i1] < wit[i2],
                forall|j: int|
                    0 <= j < k && !self@[j].is_dir && parent_of(#[trigger] self@[j].path)
                        == prefix@ ==> exists|i: int| 0 <= i < out@.len() && out@[i].id@
                        == self@[j].path,
            decreases n - k,
        {
            let is_dir = self.entries[k].is_dir;
            if !is_dir {
                let par = parent_string(self.entries[k].path.as_str());
                if eq_str(par.as_str(), prefix) {
                    proof {
                        lemma_entry_at(self@, k as int);
                        assert forall|i: int| 0 <= i < out@.len() implies #[trigger] out@[i].id@
                            != self@[k as int].path by {
                            assert(self@[wit[i]].path == out@[i].id@);
                        }
                    }
                    let fe = FileEntry {
                        id: self.entries[k].path.clone(),
                        name: name_string(self.entries[k].path.as_str()),
                    };
                    let ghost prev = out@;
                    let ghost pw = wit;
                    out.push(fe);
                    proof {
                        wit = wit.push(k as int);
                        assert(out@[prev.len() as int].id@ == self@[k as int].path);
                        assert forall|i: int| 0 <= i < out@.len() implies 0 <= #[trigger] wit[i]
                            < k + 1 && self@[wit[i]].path == out@[i].id@ by {
                            if i < prev.len() {
                                assert(out@[i].id@ == prev[i].id@);
                                assert(0 <= pw[i] < k && self@[pw[i]].path == prev[i].id@);
                                assert(wit[i] == pw[i]);
                            } else {
                                assert(wit[i] == k as int);
                            }
                        }
                        assert forall|i: int| 0 <= i < out@.len() implies is_file_at(
                            self@,
                            #[trigger] out@[i].id@,
                        ) && parent_of(out@[i].id@) == prefix@ && out@[i].name@ == name_of(
                            out@[i].id@,
                        ) by {
                            if i < prev.len() {
                                assert(out@[i].id@ == prev[i].id@);
                                assert(out@[i] == prev[i]);
                            }
                        }
                        assert forall|j: int|
                            0 <= j < k + 1 && !self@[j].is_dir && parent_of(
                                #[trigger] self@[j].path,
                            ) == prefix@ implies exists|i: int|
                            0 <= i < out@.len() && out@[i].id@ == self@[j].path by {
                            if j < k {
                                let i = choose|i: int|
                                    0 <= i < prev.len() && prev[i].id@ == self@[j].path;
                                assert(out@[i].id@ == self@[j].path);
                            } else {
                                assert(out@[prev.len() as int].id@ == self@[j].path);
                            }
                        }
                    }
                }
            }
            k = k + 1;
        }
        proof {
            assert forall|i1: int, i2: int|
                #![trigger out@[i1].id, out@[i2].id]
                0 <= i1 < out@.len() && 0 <= i2 < out@.len() && i1 != i2 implies out@[i1].id@
                != out@[i2].id@ by {
                assert(self@[wit[i1]].path == out@[i1].id@);
                assert(self@[wit[i2]].path == out@[i2].id@);
                assert(wit[i1] != wit[i2]);
            }
        }
        out
    }

    /// The identifiers of the directories directly inside `prefix`.
    fn child_dirs(&self, prefix: &str) -> (r: Vec<String>)
        requires
            self.wf(),
        ensures
            dirs_match(r@, self@, prefix@),
    {
        let n = self.entries.len();
        let mut out: Vec<String> = Vec::new();
        let ghost mut wit: Seq<int> = Seq::empty();
        let mut k: usize = 0;
        while k < n
            invariant
                k <= n,
                n == self.entries@.len(),
                self@.len() == n,
                self.wf(),
                forall|i: int|
                    0 <= i < out@.len() ==> is_dir_at(self@, #[trigger] out@[i]@) && parent_of(
                        out@[i]@,
                    ) == prefix@,
                wit.len() == out@.len(),
                forall|i: int|
                    0 <= i < out@.len() ==> 0 <= #[trigger] wit[i] < k && self@[wit[i]].path
                        == out@[i]@,
                forall|i1: int, i2: int|
                    #![trigger wit[i1], wit[i2]]
                    0 <= i1 < i2 < wit.len() ==> wit[i1] < wit[i2],
                forall|j: int|
                    0 <= j < k && self@[j].is_dir && parent_of(#[trigger] self@[j].path) == prefix@
                        ==> exists|i: int| 0 <= i < out@.len() && out@[i]@ == self@[j].path,
            decreases n - k,
        {
            let is_dir = self.entries[k].is_dir;
            if is_dir {
                let par = parent_string(self.entries[k].path.as_str());
                if eq_str(par.as_str(), prefix) {
                    proof {
                        lemma_entry_at(self@, k as int);
                        assert forall|i: int| 0 <= i < out@.len() implies #[trigger] out@[i]@
                            != self@[k as int].path by {
                            assert(self@[wit[i]].path == out@[i]@);
                        }
                    }
                    let ghost prev = out@;
                    let ghost pw = wit;
                    out.push(self.entries[k].path.clone());
                    proof {
                        wit = wit.push(k as int);
                        assert(out@[prev.len() as int]@ == self@[k as int].path);
                        assert forall|i: int| 0 <= i < out@.len() implies 0 <= #[trigger] wit[i]
                            < k + 1 && self@[wit[i]].path == out@[i]@ by {
                            if i < prev.len() {
                                assert(out@[i]@ == prev[i]@);
                                assert(0 <= pw[i] < k && self@[pw[i]].path == prev[i]@);
                                assert(wit[i] == pw[i]);
                            } else {
                                assert(wit[i] == k as int);
                            }
                        }
                        assert forall|i: int| 0 <= i < out@.len() implies is_dir_at(
                            self@,
                            #[trigger] out@[i]@,
                        ) && parent_of(out@[i]@) == prefix@ by {
                            if i < prev.len() {
                                assert(out@[i]@ == prev[i]@);
                            }
                        }
                        assert forall|j: int|
                            0 <= j < k + 1 && self@[j].is_dir && parent_of(
                                #[trigger] self@[j].path,
                            ) == prefix@ implies exists|i: int|
                            0 <= i < out@.len() && out@[i]@ == self@[j].path by {
                            if j < k {
                                let i = choose|i: int|
                                    0 <= i < prev.len() && prev[i]@ == self@[j].path;
                                assert(out@[i]@ == self@[j].path);
                            } else {
                                assert(out@[prev.len() as int]@ == self@[j].path);
                            }
                        }
                    }
                }
            }
            k = k + 1;
        }
        proof {
            assert forall|i1: int, i2: int|
                #![trigger out@[i1], out@[i2]]
                0 <= i1 < out@.len() && 0 <= i2 < out@.len() && i1 != i2 implies out@[i1]@
                != out@[i2]@ by {
                assert(self@[wit[i1]].path == out@[i1]@);
                assert(self@[wit[i2]].path == out@[i2]@);
                assert(wit[i1] != wit[i2]);
            }
        }
        out
    }

    /// Materializes the subtree rooted at the directory `prefix` (or at the
    /// storage root when `prefix` is empty) by depth-first recursion.
    pub fn build_at(&self, prefix: &String) -> (r: Folder)
        requires
            self.wf(),
            prefix@.len() == 0 || is_dir_at(self@, prefix@),
        ensures
            folder_matches(r, self@, prefix@),
        decreases max_path_len(self@) + 1 - prefix@.len(),
    {
        let files = self.child_files(prefix.as_str());
        let dirs = self.child_dirs(prefix.as_str());
        let mut subs: Vec<Folder> = Vec::new();
        let nd = dirs.len();
        let mut k: usize = 0;
        while k < nd
            invariant
                k <= nd,
                nd == dirs@.len(),
                self.wf(),
                prefix@.len() == 0 || is_dir_at(self@, prefix@),
                dirs_match(dirs@, self@, prefix@),
                subs@.len() == k,
                forall|i: int|
                    0 <= i < k ==> (#[trigger] subs@[i]).id@ == dirs@[i]@ && folder_matches(
                        subs@[i],
                        self@,
                        subs@[i].id@,
                    ),
            decreases nd - k,
        {
            proof {
                let d = dirs@[k as int]@;
                assert(is_dir_at(self@, d));
                let j = choose|j: int| 0 <= j < self@.len() && self@[j].path == d && self@[j].is_dir;
                lemma_max_path_len(self@, j);
                assert(is_clean_path(d));
                crate::paths::lemma_parent_shorter(d);
            }
            let sub = self.build_at(&dirs[k]);
            subs.push(sub);
            k = k + 1;
        }
        let f = Folder {
            id: prefix.clone(),
            name: name_string(prefix.as_str()),
            files,
            subfolders: subs,
        };
        proof {
            assert forall|kk: int|
                0 <= kk < self@.len() && self@[kk].is_dir && parent_of(#[trigger] self@[kk].path)
                    == prefix@ implies exists|i: int|
                0 <= i < f.subfolders@.len() && f.subfolders@[i].id@ == self@[kk].path by {
                let i = choose|i: int| 0 <= i < dirs@.len() && dirs@[i]@ == self@[kk].path;
                assert(f.subfolders@[i].id@ == self@[kk].path);
            }
            assert(folder_matches(f, self@, prefix@));
        }
        f
    }

    /// Materializes the whole storage tree: the root folder, with the empty
    /// identifier and name, holding everything below the storage root.
    pub fn list_all_files(&self) -> (r: Folder)
        requires
            self.wf(),
        ensures
            folder_matches(r, self@, Seq::<char>::empty()),
            r.id@ == Seq::<char>::empty(),
            r.name@ == Seq::<char>::empty(),
    {
        let root = String::new();
        proof {
            crate::paths::lemma_last_index_of_bounds(root@, '/');
            assert(root@.skip(0) =~= root@);
        }
        self.build_at(&root)
    }

    /// Lists the top-level folders, each holding only its direct files; a
    /// shallow, one-level view of the storage tree.
    pub fn list_folders(&self) -> (r: Vec<Folder>)
        requires
            self.wf(),
        ensures
            forall|i: int|
                0 <= i < r@.len() ==> is_dir_at(self@, (#[trigger] r@[i]).id@) && parent_of(
                    r@[i].id@,
                ) == Seq::<char>::empty() && r@[i].name@ == name_of(r@[i].id@) && files_match(
                    r@[i].files@,
                    self@,
                    r@[i].id@,
                ) && r@[i].subfolders@.len() == 0,
            forall|i: int, j: int|
                #![trigger r@[i].id, r@[j].id]
                0 <= i < r@.len() && 0 <= j < r@.len() && i != j ==> r@[i].id@ != r@[j].id@,
            forall|k: int|
                0 <= k < self@.len() && self@[k].is_dir && parent_of(#[trigger] self@[k].path)
                    == Seq::<char>::empty() ==> exists|i: int|
                    0 <= i < r@.len() && r@[i].id@ == self@[k].path,
    {
        let empty = String::new();
        let dirs = self.child_dirs(empty.as_str());
        let mut out: Vec<Folder> = Vec::new();
        let nd = dirs.len();
        let mut k: usize = 0;
        while k < nd
            invariant
                k <= nd,
                nd == dirs@.len(),
                self.wf(),
                empty@ == Seq::<char>::empty(),
                dirs_match(dirs@, self@, empty@),
                out@.len() == k,
                forall|i: int|
                    0 <= i < k ==> (#[trigger] out@[i]).id@ == dirs@[i]@ && out@[i].name@
                        == name_of(out@[i].id@) && files_match(out@[i].files@, self@, out@[i].id@)
                        && out@[i].subfolders@.len() == 0,
            decreases nd - k,
        {
            let files = self.child_files(dirs[k].as_str());
            let fold = Folder {
                id: dirs[k].clone(),
                name: name_string(dirs[k].as_str()),
                files,
                subfolders: Vec::new(),
            };
            out.push(fold);
            k = k + 1;
        }
        proof {
            assert forall|kk: int|
                0 <= kk < self@.len() && self@[kk].is_dir && parent_of(#[trigger] self@[kk].path)
                    == Seq::<char>::empty() implies exists|i: int|
                0 <= i < out@.len() && out@[i].id@ == self@[kk].path by {
                let i = choose|i: int| 0 <= i < dirs@.len() && dirs@[i]@ == self@[kk].path;
                assert(out@[i].id@ == self@[kk].path);
            }
        }
        out
    }
}

/// Whether the entry at `p` is touched by an operation on the folder
/// `name`: it is the folder itself or lies strictly below it.
pub open spec fn folder_affected(p: Seq<char>, name: Seq<char>) -> bool {
    p == name || is_ancestor_of(name, p)
}

/// The state after a successful folder deletion: exactly the untouched
/// entries remain, unchanged.
pub open spec fn folder_deleted(pre: Seq<EntryV>, post: Seq<EntryV>, name: Seq<char>) -> bool {
    &&& forall|p: Seq<char>|
        #[trigger] contains_path(post, p) <==> contains_path(pre, p) && !folder_affected(p, name)
    &&& forall|p: Seq<char>| contains_path(post, p) ==> #[trigger] node_same(pre, post, p)
}

impl Storage {
    /// Deletes the folder at `name` together with everything below it.
    pub fn delete_folder(&mut self, name: &str) -> (r: Result<(), FsError>)
        requires
            old(self).wf(),
        ensures
            final(self).wf(),
            r is Ok <==> is_clean_path(name@) && is_dir_at(old(self)@, name@),
            match r {
                Ok(()) => folder_deleted(old(self)@, final(self)@, name@),
                Err(e) => final(self)@ == old(self)@ && match e {
                    FsError::PathEscapesRoot => !is_clean_path(name@),
                    FsError::NotFound => is_clean_path(name@) && !is_dir_at(old(self)@, name@),
                    _ => false,
                },
            },
    {
        if !is_clean_string(name) {
            return Err(FsError::PathEscapesRoot);
        }
        match self.find_entry(name) {
            None => {
                proof {
                    assert(!is_dir_at(self@, name@));
                }
                return Err(FsError::NotFound);
            },
            Some(i) => {
                if !self.entries[i].is_dir {
                    proof {
                        assert forall|j: int|
                            0 <= j < self@.len() && self@[j].path == name@ implies !(
                            self@[j].is_dir) by {
                            assert(j == i as int);
                        }
                    }
                    return Err(FsError::NotFound);
                }
                proof {
                    lemma_entry_at(self@, i as int);
                }
            },
        }
        let ghost pre = self@;
        let n = self.entries.len();
        let mut kept: Vec<Entry> = Vec::new();
        let ghost mut wit: Seq<int> = Seq::empty();
        let mut k: usize = 0;
        while k < n
            invariant
                k <= n,
                n == pre.len(),
                self@ == pre,
                self.entries@.len() == n,
                entries_wf(pre),
                wit.len() == kept@.len(),
                forall|i: int|
                    0 <= i < kept@.len() ==> 0 <= #[trigger] wit[i] < k && kept@[i]@ == pre[wit[i]]
                        && !folder_affected(pre[wit[i]].path, name@),
                forall|i1: int, i2: int|
                    #![trigger wit[i1], wit[i2]]
                    0 <= i1 < i2 < wit.len() ==> wit[i1] < wit[i2],
                forall|j: int|
                    0 <= j < k && !folder_affected(#[trigger] pre[j].path, name@) ==> exists|
                        i: int,
                    | 0 <= i < kept@.len() && kept@[i]@ == pre[j],
            decreases n - k,
        {
            let affected = eq_str(self.entries[k].path.as_str(), name) || crate::paths::is_strictly_under(
                self.entries[k].path.as_str(),
                name,
            );
            if !affected {
                let e = &self.entries[k];
                let kept_entry = Entry {
                    path: e.path.clone(),
                    is_dir: e.is_dir,
                    content: e.content.clone(),
                };
                let ghost prev = kept@;
                let ghost pw = wit;
                kept.push(kept_entry);
                proof {
                    wit = wit.push(k as int);
                    assert(kept@[prev.len() as int]@ == pre[k as int]);
                    assert forall|i: int| 0 <= i < kept@.len() implies 0 <= #[trigger] wit[i] < k
                        + 1 && kept@[i]@ == pre[wit[i]] && !folder_affected(
                        pre[wit[i]].path,
                        name@,
                    ) by {
                        if i < prev.len() {
                            assert(kept@[i] == prev[i]);
                            assert(wit[i] == pw[i]);
                        } else {
                            assert(wit[i] == k as int);
                        }
                    }
                    assert forall|j: int|
                        0 <= j < k + 1 && !folder_affected(
                            #[trigger] pre[j].path,
                            name@,
                        ) implies exists|i: int| 0 <= i < kept@.len() && kept@[i]@ == pre[j] by {
                        if j < k {
                            let i = choose|i: int| 0 <= i < prev.len() && prev[i]@ == pre[j];
                            assert(kept@[i]@ == pre[j]);
                        } else {
                            assert(kept@[prev.len() as int]@ == pre[j]);
                        }
                    }
                }
            }
            k = k + 1;
        }
        self.entries = kept;
        proof {
            assert(self@.len() == wit.len());
            assert forall|i: int| 0 <= i < self@.len() implies 0 <= #[trigger] wit[i] < pre.len()
                && self@[i] == pre[wit[i]] && !folder_affected(pre[wit[i]].path, name@) by {
                assert(self@[i] == kept@[i]@);
            }
            assert forall|j: int|
                0 <= j < pre.len() && !folder_affected(#[trigger] pre[j].path, name@) implies
                exists|i: int| 0 <= i < self@.len() && self@[i] == pre[j] by {
                let i = choose|i: int| 0 <= i < kept@.len() && kept@[i]@ == pre[j];
                assert(self@[i] == pre[j]);
            }
            lemma_delete_folder_post(pre, self@, wit, name@);
        }
        Ok(())
    }
}

/// After filtering out the affected entries of a well-formed snapshot, what
/// remains is well-formed and is exactly the set of untouched entries.
proof fn lemma_delete_folder_post(
    pre: Seq<EntryV>,
    post: Seq<EntryV>,
    wit: Seq<int>,
    name: Seq<char>,
)
    requires
        entries_wf(pre),
        is_clean_path(name),
        wit.len() == post.len(),
        forall|i: int|
            0 <= i < post.len() ==> 0 <= #[trigger] wit[i] < pre.len() && post[i] == pre[wit[i]]
                && !folder_affected(pre[wit[i]].path, name),
        forall|i1: int, i2: int|
            #![trigger wit[i1], wit[i2]]
            0 <= i1 < i2 < wit.len() ==> wit[i1] < wit[i2],
        forall|j: int|
            0 <= j < pre.len() && !folder_affected(#[trigger] pre[j].path, name) ==> exists|i: int|
                0 <= i < post.len() && post[i] == pre[j],
    ensures
        entries_wf(post),
        folder_deleted(pre, post, name),
{
    assert forall|i1: int, i2: int|
        #![trigger post[i1].path, post[i2].path]
        0 <= i1 < post.len() && 0 <= i2 < post.len() && i1 != i2 implies post[i1].path
        != post[i2].path by {
        assert(post[i1] == pre[wit[i1]]);
        assert(post[i2] == pre[wit[i2]]);
        assert(wit[i1] != wit[i2]);
    }
    assert forall|i: int| 0 <= i < post.len() implies is_clean_path(#[trigger] post[i].path) by {
        assert(post[i] == pre[wit[i]]);
    }
    assert forall|p: Seq<char>| #[trigger] contains_path(post, p) implies contains_path(pre, p)
        && !folder_affected(p, name) by {
        let i = choose|i: int| 0 <= i < post.len() && post[i].path == p;
        assert(post[i] == pre[wit[i]]);
        assert(pre[wit[i]].path == p);
    }
    assert forall|p: Seq<char>|
        contains_path(pre, p) && !folder_affected(p, name) implies #[trigger] contains_path(
        post,
        p,
    ) by {
        let j = choose|j: int| 0 <= j < pre.len() && pre[j].path == p;
        let i = choose|i: int| 0 <= i < post.len() && post[i] == pre[j];
        assert(post[i].path == p);
    }
    assert forall|p: Seq<char>| contains_path(post, p) implies #[trigger] node_same(
        pre,
        post,
        p,
    ) by {
        let i = choose|i: int| 0 <= i < post.len() && post[i].path == p;
        lemma_entry_at(post, i);
        assert(post[i] == pre[wit[i]]);
        lemma_entry_at(pre, wit[i]);
    }
    assert forall|i: int| 0 <= i < post.len() implies parent_present(
        post,
        #[trigger] post[i].path,
    ) by {
        let p = post[i].path;
        assert(post[i] == pre[wit[i]]);
        assert(contains_path(pre, p) && !folder_affected(p, name));
        if parent_of(p).len() > 0 {
            assert(parent_present(pre, p));
            assert(is_dir_at(pre, parent_of(p)));
            // The parent cannot be affected: if it were the folder itself or
            // below it, then p would lie below the folder as well.
            crate::paths::lemma_last_index_of_bounds(p, '/');
            assert(is_clean_path(p));
            crate::paths::lemma_clean_decompose(p);
            if folder_affected(parent_of(p), name) {
                if parent_of(p) == name {
                    assert(is_ancestor_of(name, p));
                    assert(false);
                } else {
                    crate::paths::lemma_ancestor_trans(name, parent_of(p), p);
                    assert(false);
                }
            }
            assert(contains_path(pre, parent_of(p)));
            assert(contains_path(post, parent_of(p)));
            let j = choose|j: int| 0 <= j < post.len() && post[j].path == parent_of(p);
            assert(post[j] == pre[wit[j]]);
            assert(is_dir_at(pre, parent_of(p)) ==> pre[wit[j]].is_dir) by {
                let m = choose|m: int|
                    0 <= m < pre.len() && pre[m].path == parent_of(p) && pre[m].is_dir;
                assert(m == wit[j]);
            }
            assert(post[j].is_dir);
            assert(is_dir_at(post, parent_of(p)));
        }
    }
}

/// The identifier of an entry after the folder `old_name` is renamed to
/// `new_name`: the folder itself moves to `new_name`, everything below it
/// keeps its remainder under the new prefix, everything else is unchanged.
pub open spec fn rename_path(p: Seq<char>, old_name: Seq<char>, new_name: Seq<char>) -> Seq<
    char,
> {
    if p == old_name {
        new_name
    } else if is_ancestor_of(old_name, p) {
        new_name + p.skip(old_name.len() as int)
    } else {
        p
    }
}

/// An entry after a folder rename: only the identifier changes.
pub open spec fn renamed_entry(e: EntryV, old_name: Seq<char>, new_name: Seq<char>) -> EntryV {
    EntryV { path: rename_path(e.path, old_name, new_name), is_dir: e.is_dir, content: e.content }
}

/// The state after a successful folder rename: every entry rewritten in
/// place.
pub open spec fn folder_renamed(
    pre: Seq<EntryV>,
    post: Seq<EntryV>,
    old_name: Seq<char>,
    new_name: Seq<char>,
) -> bool {
    post == pre.map_values(|e: EntryV| renamed_entry(e, old_name, new_name))
}

/// When renaming the folder `old_name` to `new_name` succeeds.
pub open spec fn rename_folder_ok(
    s: Seq<EntryV>,
    old_name: Seq<char>,
    new_name: Seq<char>,
) -> bool {
    &&& is_clean_path(old_name)
    &&& is_clean_path(new_name)
    &&& is_dir_at(s, old_name)
    &&& !contains_path(s, new_name)
    &&& parent_present(s, new_name)
    &&& !folder_affected(new_name, old_name)
}

/// Which failure a folder rename reports, and exactly when.
pub open spec fn rename_folder_err(
    s: Seq<EntryV>,
    old_name: Seq<char>,
    new_name: Seq<char>,
    e: FsError,
) -> bool {
    match e {
        FsError::PathEscapesRoot => !is_clean_path(old_name) || !is_clean_path(new_name),
        FsError::NotFound => is_clean_path(old_name) && is_clean_path(new_name) && !is_dir_at(
            s,
            old_name,
        ),
        FsError::AlreadyExists => is_clean_path(old_name) && is_clean_path(new_name) && is_dir_at(
            s,
            old_name,
        ) && contains_path(s, new_name),
        FsError::IoError(_) => is_clean_path(old_name) && is_clean_path(new_name) && is_dir_at(
            s,
            old_name,
        ) && !contains_path(s, new_name) && (!parent_present(s, new_name) || folder_affected(
            new_name,
            old_name,
        )),
        _ => false,
    }
}

impl Storage {
    /// Renames (or moves) the folder `old_name` to `new_name`; every entry
    /// below it keeps its place under the new prefix, and all identifiers
    /// change implicitly since they are path-derived. Returns the freshly
    /// materialized folder at the new identifier.
    pub fn modify_folder(&mut self, old_name: &str, new_name: &str) -> (r: Result<
        Folder,
        FsError,
    >)
        requires
            old(self).wf(),
        ensures
            final(self).wf(),
            r is Ok <==> rename_folder_ok(old(self)@, old_name@, new_name@),
            match r {
                Ok(folder) => {
                    &&& folder_renamed(old(self)@, final(self)@, old_name@, new_name@)
                    &&& folder_matches(folder, final(self)@, new_name@)
                    &&& folder.id@ == new_name@
                    &&& is_dir_at(final(self)@, new_name@)
                    &&& final(self)@.len() == old(self)@.len()
                },
                Err(e) => final(self)@ == old(self)@ && rename_folder_err(
                    old(self)@,
                    old_name@,
                    new_name@,
                    e,
                ),
            },
    {
        if !is_clean_string(old_name) || !is_clean_string(new_name) {
            return Err(FsError::PathEscapesRoot);
        }
        match self.find_entry(old_name) {
            None => {
                proof {
                    assert(!is_dir_at(self@, old_name@));
                }
                return Err(FsError::NotFound);
            },
            Some(i) => {
                if !self.entries[i].is_dir {
                    proof {
                        assert forall|j: int|
                            0 <= j < self@.len() && self@[j].path == old_name@ implies !(
                            self@[j].is_dir) by {
                            assert(j == i as int);
                        }
                    }
                    return Err(FsError::NotFound);
                }
                proof {
                    lemma_entry_at(self@, i as int);
                }
            },
        }
        if self.find_entry(new_name).is_some() {
            return Err(FsError::AlreadyExists);
        }
        if crate::paths::is_strictly_under(new_name, old_name) {
            return Err(
                FsError::IoError(String::from_str("cannot move a folder below itself")),
            );
        }
        let par = parent_string(new_name);
        if par.as_str().unicode_len() > 0 {
            match self.find_entry(par.as_str()) {
                None => {
                    proof {
                        assert(!is_dir_at(self@, parent_of(new_name@)));
                    }
                    return Err(
                        FsError::IoError(String::from_str("target directory does not exist")),
                    );
                },
                Some(j) => {
                    if !self.entries[j].is_dir {
                        proof {
                            assert forall|m: int|
                                0 <= m < self@.len() && self@[m].path == parent_of(
                                    new_name@,
                                ) implies !(self@[m].is_dir) by {
                                assert(m == j as int);
                            }
                        }
                        return Err(
                            FsError::IoError(String::from_str("target parent is not a directory")),
                        );
                    }
                    proof {
                        assert(is_dir_at(self@, parent_of(new_name@)));
                    }
                },
            }
        }
        proof {
            assert(new_name@ != old_name@);
        }
        let ghost pre = self@;
        let old_chars = old_name.unicode_len();
        let n = self.entries.len();
        let mut out: Vec<Entry> = Vec::new();
        let mut k: usize = 0;
        while k < n
            invariant
                k <= n,
                self@ == pre,
                n == pre.len(),
                self.entries@.len() == n,
                old_chars as nat == old_name@.len(),
                out@.len() == k,
                forall|i: int|
                    0 <= i < k ==> (#[trigger] out@[i])@ == renamed_entry(
                        pre[i],
                        old_name@,
                        new_name@,
                    ),
            decreases n - k,
        {
            let affected_self = eq_str(self.entries[k].path.as_str(), old_name);
            let affected_below = crate::paths::is_strictly_under(
                self.entries[k].path.as_str(),
                old_name,
            );
            let next = if affected_self {
                Entry {
                    path: String::from_str(new_name),
                    is_dir: self.entries[k].is_dir,
                    content: self.entries[k].content.clone(),
                }
            } else if affected_below {
                let pl = self.entries[k].path.as_str().unicode_len();
                let suffix = self.entries[k].path.as_str().substring_char(old_chars, pl);
                let mut np = String::from_str(new_name);
                np.append(suffix);
                proof {
                    assert(suffix@ =~= pre[k as int].path.skip(old_name@.len() as int));
                }
                Entry {
                    path: np,
                    is_dir: self.entries[k].is_dir,
                    content: self.entries[k].content.clone(),
                }
            } else {
                Entry {
                    path: self.entries[k].path.clone(),
                    is_dir: self.entries[k].is_dir,
                    content: self.entries[k].content.clone(),
                }
            };
            let ghost prev = out@;
            out.push(next);
            proof {
                assert(out@[prev.len() as int]@ == renamed_entry(
                    pre[k as int],
                    old_name@,
                    new_name@,
                ));
                assert forall|i: int| 0 <= i < k + 1 implies (#[trigger] out@[i])@
                    == renamed_entry(pre[i], old_name@, new_name@) by {
                    if i < prev.len() {
                        assert(out@[i] == prev[i]);
                    }
                }
            }
            k = k + 1;
        }
        self.entries = out;
        proof {
            assert forall|i: int| 0 <= i < self@.len() implies #[trigger] self@[i]
                == renamed_entry(pre[i], old_name@, new_name@) by {
                assert(self@[i] == out@[i]@);
            }
            assert(self@ =~= pre.map_values(
                |e: EntryV| renamed_entry(e, old_name@, new_name@),
            ));
            lemma_rename_folder_post(pre, self@, old_name@, new_name@);
        }
        let new_path = String::from_str(new_name);
        let folder = self.build_at(&new_path);
        Ok(folder)
    }
}

/// No prefix of `name` at a separator boundary is an existing file; such a
/// file would make directory creation impossible.
pub open spec fn ancestors_ok(s: Seq<EntryV>, name: Seq<char>) -> bool {
    forall|q: Seq<char>| #[trigger] is_ancestor_of(q, name) ==> !is_file_at(s, q)
}

/// When creating the folder `name` (with any missing intermediate
/// directories) succeeds.
pub open spec fn create_folder_ok(s: Seq<EntryV>, name: Seq<char>) -> bool {
    &&& is_clean_path(name)
    &&& !contains_path(s, name)
    &&& ancestors_ok(s, name)
}

/// Which failure a folder creation reports, and exactly when.
pub open spec fn create_folder_err(s: Seq<EntryV>, name: Seq<char>, e: FsError) -> bool {
    match e {
        FsError::PathEscapesRoot => !is_clean_path(name),
        FsError::AlreadyExists => is_clean_path(name) && contains_path(s, name),
        FsError::IoError(_) => is_clean_path(name) && !contains_path(s, name) && !ancestors_ok(
            s,
            name,
        ),
        _ => false,
    }
}

/// The state after a successful folder creation: the old entries unchanged,
/// followed by directory entries for the missing prefixes of `name` and for
/// `name` itself.
pub open spec fn folder_created(pre: Seq<EntryV>, post: Seq<EntryV>, name: Seq<char>) -> bool {
    &&& pre.is_prefix_of(post)
    &&& forall|m: int|
        pre.len() <= m < post.len() ==> (#[trigger] post[m]).is_dir && (post[m].path == name
            || is_ancestor_of(post[m].path, name)) && !contains_path(pre, post[m].path)
    &&& is_dir_at(post, name)
    &&& forall|q: Seq<char>| #[trigger] is_ancestor_of(q, name) ==> is_dir_at(post, q)
    &&& forall|p: Seq<char>|
        #[trigger] contains_path(post, p) <==> contains_path(pre, p) || p == name
            || is_ancestor_of(p, name)
    &&& forall|p: Seq<char>| contains_path(pre, p) ==> #[trigger] node_same(pre, post, p)
}

impl Storage {
    /// Creates the folder at `name`, together with any missing intermediate
    /// directories, and returns it as a freshly materialized (empty) tree
    /// node.
    pub fn create_folder(&mut self, name: &str) -> (r: Result<Folder, FsError>)
        requires
            old(self).wf(),
        ensures
            final(self).wf(),
            r is Ok <==> create_folder_ok(old(self)@, name@),
            match r {
                Ok(folder) => {
                    &&& folder_created(old(self)@, final(self)@, name@)
                    &&& folder.id@ == name@
                    &&& folder.name@ == name_of(name@)
                    &&& folder.files@.len() == 0
                    &&& folder.subfolders@.len() == 0
                    &&& folder_matches(folder, final(self)@, name@)
                },
                Err(e) => final(self)@ == old(self)@ && create_folder_err(old(self)@, name@, e),
            },
    {
        if !is_clean_string(name) {
            return Err(FsError::PathEscapesRoot);
        }
        if self.find_entry(name).is_some() {
            return Err(FsError::AlreadyExists);
        }
        let nc = name.unicode_len();
        // First pass: no prefix of `name` at a separator may be a file.
        let mut j: usize = 0;
        while j < nc
            invariant
                j <= nc,
                nc as nat == name@.len(),
                self@ == old(self)@,
                old(self).wf(),
                is_clean_path(name@),
                !contains_path(self@, name@),
                forall|t: int|
                    0 <= t < j && name@[t] == '/' ==> !is_file_at(self@, name@.take(t)),
            decreases nc - j,
        {
            if name.get_char(j) == '/' {
                let prefix = name.substring_char(0, j);
                proof {
                    assert(prefix@ =~= name@.take(j as int));
                }
                match self.find_entry(prefix) {
                    Some(i) => {
                        if !self.entries[i].is_dir {
                            proof {
                                assert(is_ancestor_of(name@.take(j as int), name@));
                                assert(is_file_at(self@, name@.take(j as int)));
                            }
                            return Err(
                                FsError::IoError(
                                    String::from_str("an intermediate entry is not a directory"),
                                ),
                            );
                        }
                        proof {
                            assert forall|t: int|
                                0 <= t < j + 1 && name@[t] == '/' implies !is_file_at(
                                self@,
                                name@.take(t),
                            ) by {
                                if t == j {
                                    if is_file_at(self@, name@.take(t)) {
                                        let m = choose|m: int|
                                            0 <= m < self@.len() && self@[m].path == name@.take(t)
                                                && !self@[m].is_dir;
                                        assert(m == i as int);
                                    }
                                }
                            }
                        }
                    },
                    None => {
                        proof {
                            assert forall|t: int|
                                0 <= t < j + 1 && name@[t] == '/' implies !is_file_at(
                                self@,
                                name@.take(t),
                            ) by {
                                if t == j {
                                    if is_file_at(self@, name@.take(t)) {
                                        let m = choose|m: int|
                                            0 <= m < self@.len() && self@[m].path == name@.take(t)
                                                && !self@[m].is_dir;
                                        assert(contains_path(self@, name@.take(t)));
                                    }
                                }
                            }
                        }
                    },
                }
            }
            j = j + 1;
        }
        proof {
            assert forall|q: Seq<char>| #[trigger] is_ancestor_of(q, name@) implies !is_file_at(
                self@,
                q,
            ) by {
                assert(q =~= name@.take(q.len() as int));
            }
        }
        // Second pass: insert the missing prefixes, shallowest first, then
        // the folder itself.
        let ghost pre = self@;
        let mut j: usize = 0;
        let mut prev_slash: Option<usize> = None;
        while j < nc
            invariant
                j <= nc,
                nc as nat == name@.len(),
                entries_wf(self@),
                entries_wf(pre),
                is_clean_path(name@),
                !contains_path(pre, name@),
                ancestors_ok(pre, name@),
                match prev_slash {
                    None => forall|t: int| 0 <= t < j ==> name@[t] != '/',
                    Some(t) => t < j && name@[t as int] == '/' && forall|u: int|
                        t < u < j ==> name@[u] != '/',
                },
                forall|t: int| 0 <= t < j && name@[t] == '/' ==> is_dir_at(self@, name@.take(t)),
                pre.is_prefix_of(self@),
                forall|m: int|
                    pre.len() <= m < self@.len() ==> (#[trigger] self@[m]).is_dir
                        && is_ancestor_of(self@[m].path, name@) && !contains_path(
                        pre,
                        self@[m].path,
                    ),
                forall|p: Seq<char>|
                    #[trigger] contains_path(self@, p) ==> contains_path(pre, p)
                        || is_ancestor_of(p, name@),
                forall|p: Seq<char>| contains_path(pre, p) ==> #[trigger] contains_path(self@, p),
                forall|p: Seq<char>|
                    contains_path(pre, p) ==> #[trigger] node_same(pre, self@, p),
            decreases nc - j,
        {
            if name.get_char(j) == '/' {
                let prefix = name.substring_char(0, j);
                proof {
                    assert(prefix@ =~= name@.take(j as int));
                    assert(is_ancestor_of(name@.take(j as int), name@));
                    crate::paths::lemma_clean_take_slash(name@, j as int);
                }
                if self.find_entry(prefix).is_none() {
                    let entry = Entry {
                        path: String::from_str(prefix),
                        is_dir: true,
                        content: String::new(),
                    };
                    let ghost mid = self@;
                    proof {
                        // The parent of this prefix is the previous slash
                        // prefix (or the root), already a directory.
                        match prev_slash {
                            None => {
                                assert forall|u: int|
                                    0 <= u < prefix@.len() implies prefix@[u] != '/' by {
                                    assert(prefix@[u] == name@[u]);
                                }
                                crate::paths::lemma_last_index_of_absent(prefix@, '/');
                            },
                            Some(t) => {
                                assert(prefix@[t as int] == '/');
                                assert forall|u: int|
                                    t < u < prefix@.len() implies prefix@[u] != '/' by {
                                    assert(prefix@[u] == name@[u]);
                                }
                                crate::paths::lemma_last_index_of_witness(prefix@, '/', t as int);
                                assert(prefix@.take(t as int) =~= name@.take(t as int));
                                assert(is_dir_at(self@, parent_of(prefix@)));
                            },
                        }
                        assert(parent_present(mid, prefix@));
                    }
                    self.entries.push(entry);
                    proof {
                        assert(self@ =~= mid.push(
                            EntryV { path: prefix@, is_dir: true, content: Seq::empty() },
                        ));
                        lemma_push_effect(
                            mid,
                            EntryV { path: prefix@, is_dir: true, content: Seq::empty() },
                        );
                        assert forall|i: int| 0 <= i < self@.len() implies parent_present(
                            self@,
                            #[trigger] self@[i].path,
                        ) by {
                            if i < mid.len() {
                                assert(parent_present(mid, mid[i].path));
                            }
                        }
                        assert forall|p: Seq<char>|
                            contains_path(pre, p) implies #[trigger] node_same(pre, self@, p) by {
                            assert(node_same(pre, mid, p));
                            assert(contains_path(mid, p));
                            let w = choose|w: int| 0 <= w < mid.len() && mid[w].path == p;
                            lemma_entry_at(mid, w);
                            lemma_entry_at(self@, w);
                        }
                    }
                }
                proof {
                    assert forall|t: int|
                        0 <= t < j + 1 && name@[t] == '/' implies is_dir_at(
                        self@,
                        name@.take(t),
                    ) by {
                        if t == j {
                            if contains_path(self@, name@.take(t)) {
                                let m = choose|m: int|
                                    0 <= m < self@.len() && self@[m].path == name@.take(t);
                                if m < pre.len() {
                                    assert(pre =~= self@.subrange(0, pre.len() as int));
                                    assert(pre[m] == self@[m]);
                                    assert(is_ancestor_of(name@.take(t), name@));
                                    assert(!is_file_at(pre, name@.take(t)));
                                    if !self@[m].is_dir {
                                        assert(is_file_at(pre, name@.take(t)));
                                    }
                                } else {
                                    assert(self@[m].is_dir);
                                }
                                assert(is_dir_at(self@, name@.take(t)));
                            }
                        }
                    }
                }
                prev_slash = Some(j);
            }
            j = j + 1;
        }
        // Finally the folder itself.
        let entry = Entry { path: String::from_str(name), is_dir: true, content: String::new() };
        let ghost mid = self@;
        proof {
            assert(name@.take(nc as int) =~= name@);
            if contains_path(mid, name@) {
                assert(!contains_path(pre, name@));
                let m = choose|m: int| 0 <= m < mid.len() && mid[m].path == name@;
                assert(is_ancestor_of(name@, name@));
                assert(false);
            }
            match prev_slash {
                None => {
                    crate::paths::lemma_last_index_of_absent(name@, '/');
                },
                Some(t) => {
                    crate::paths::lemma_last_index_of_witness(name@, '/', t as int);
                    assert(is_dir_at(mid, name@.take(t as int)));
                },
            }
            assert(parent_present(mid, name@));
        }
        self.entries.push(entry);
        proof {
            assert(self@ =~= mid.push(
                EntryV { path: name@, is_dir: true, content: Seq::empty() },
            ));
            lemma_push_effect(mid, EntryV { path: name@, is_dir: true, content: Seq::empty() });
            assert forall|i: int| 0 <= i < self@.len() implies parent_present(
                self@,
                #[trigger] self@[i].path,
            ) by {
                if i < mid.len() {
                    assert(parent_present(mid, mid[i].path));
                }
            }
            assert forall|p: Seq<char>| contains_path(pre, p) implies #[trigger] node_same(
                pre,
                self@,
                p,
            ) by {
                assert(node_same(pre, mid, p));
                assert(contains_path(mid, p));
                let w = choose|w: int| 0 <= w < mid.len() && mid[w].path == p;
                lemma_entry_at(mid, w);
                lemma_entry_at(self@, w);
            }
            assert(is_dir_at(self@, name@));
            assert forall|q: Seq<char>| #[trigger] is_ancestor_of(q, name@) implies is_dir_at(
                self@,
                q,
            ) by {
                assert(q =~= name@.take(q.len() as int));
                assert(name@[q.len() as int] == '/');
                assert(is_dir_at(mid, name@.take(q.len() as int)));
                let m = choose|m: int|
                    0 <= m < mid.len() && mid[m].path == name@.take(q.len() as int)
                        && mid[m].is_dir;
                assert(self@[m].path == q && self@[m].is_dir);
            }
            assert forall|p: Seq<char>| #[trigger] contains_path(self@, p) implies contains_path(
                pre,
                p,
            ) || p == name@ || is_ancestor_of(p, name@) by {}
            assert forall|p: Seq<char>|
                contains_path(pre, p) || p == name@ || is_ancestor_of(
                    p,
                    name@,
                ) implies #[trigger] contains_path(self@, p) by {
                if is_ancestor_of(p, name@) && !contains_path(pre, p) && p != name@ {
                    assert(is_dir_at(self@, p));
                    let m = choose|m: int|
                        0 <= m < self@.len() && self@[m].path == p && self@[m].is_dir;
                }
            }
            // No entry can sit directly inside the new folder.
            assert forall|k: int|
                0 <= k < self@.len() implies parent_of(#[trigger] self@[k].path) != name@ by {
                if parent_of(self@[k].path) == name@ {
                    if k < pre.len() {
                        assert(parent_present(pre, pre[k].path));
                        assert(is_dir_at(pre, name@));
                        assert(contains_path(pre, name@));
                        assert(false);
                    } else {
                        let p = self@[k].path;
                        assert(p == name@ || is_ancestor_of(p, name@));
                        crate::paths::lemma_parent_shorter(p);
                        assert(parent_of(p).len() < p.len());
                        assert(p.len() <= name@.len());
                        assert(false);
                    }
                }
            }
        }
        let folder = Folder {
            id: String::from_str(name),
            name: name_string(name),
            files: Vec::new(),
            subfolders: Vec::new(),
        };
        proof {
            assert(folder.files@.len() == 0);
            assert(folder.subfolders@.len() == 0);
            assert(folder_matches(folder, self@, name@));
        }
        Ok(folder)
    }
}

/// A well-formed snapshot without an entry at `root` holds nothing strictly
/// below `root` either: parents are always present, so an orphaned
/// descendant would force `root` itself to exist.
proof fn lemma_no_orphan_descendants(s: Seq<EntryV>, root: Seq<char>, p: Seq<char>)
    requires
        entries_wf(s),
        !contains_path(s, root),
        root.len() > 0,
        contains_path(s, p),
    ensures
        !is_ancestor_of(root, p),
    decreases p.len(),
{
    if is_ancestor_of(root, p) {
        let j = choose|j: int| 0 <= j < s.len() && s[j].path == p;
        assert(is_clean_path(p));
        crate::paths::lemma_ancestor_parent(root, p);
        assert(parent_present(s, p));
        assert(parent_of(p).len() >= root.len());
        assert(is_dir_at(s, parent_of(p)));
        let m = choose|m: int|
            0 <= m < s.len() && s[m].path == parent_of(p) && s[m].is_dir;
        assert(contains_path(s, parent_of(p)));
        if parent_of(p) == root {
            assert(false);
        } else {
            crate::paths::lemma_parent_shorter(p);
            lemma_no_orphan_descendants(s, root, parent_of(p));
            assert(false);
        }
    }
}

/// If the parent of a clean path is the renamed folder or lies below it,
/// the path itself lies strictly below the folder.
proof fn lemma_parent_in_affected(old_name: Seq<char>, p: Seq<char>)
    requires
        is_clean_path(p),
        old_name.len() > 0,
        folder_affected(parent_of(p), old_name),
    ensures
        is_ancestor_of(old_name, p),
{
    crate::paths::lemma_last_index_of_bounds(p, '/');
    assert(parent_of(p).len() >= old_name.len());
    assert(crate::paths::last_index_of(p, '/') >= 0);
    crate::paths::lemma_clean_decompose(p);
    if parent_of(p) == old_name {
    } else {
        crate::paths::lemma_ancestor_trans(old_name, parent_of(p), p);
    }
}

/// A path strictly below the renamed folder decomposes as the folder, a
/// separator, and a remainder.
proof fn lemma_affected_decompose(p: Seq<char>, old_name: Seq<char>)
    requires
        is_ancestor_of(old_name, p),
    ensures
        p == old_name + p.skip(old_name.len() as int),
        p.skip(old_name.len() as int).len() > 0,
        p.skip(old_name.len() as int)[0] == '/',
{
    assert(p =~= p.take(old_name.len() as int) + p.skip(old_name.len() as int));
    assert(p.skip(old_name.len() as int)[0] == p[old_name.len() as int]);
}

/// Renaming a folder keeps identifiers distinct.
proof fn lemma_rename_path_injective(
    pre: Seq<EntryV>,
    old_name: Seq<char>,
    new_name: Seq<char>,
    p1: Seq<char>,
    p2: Seq<char>,
)
    requires
        entries_wf(pre),
        rename_folder_ok(pre, old_name, new_name),
        contains_path(pre, p1),
        contains_path(pre, p2),
        is_clean_path(p1),
        is_clean_path(p2),
        p1 != p2,
    ensures
        rename_path(p1, old_name, new_name) != rename_path(p2, old_name, new_name),
{
    let r1 = rename_path(p1, old_name, new_name);
    let r2 = rename_path(p2, old_name, new_name);
    if folder_affected(p1, old_name) && folder_affected(p2, old_name) {
        if p1 == old_name {
            lemma_affected_decompose(p2, old_name);
            assert(r2.len() > new_name.len());
        } else if p2 == old_name {
            lemma_affected_decompose(p1, old_name);
            assert(r1.len() > new_name.len());
        } else {
            lemma_affected_decompose(p1, old_name);
            lemma_affected_decompose(p2, old_name);
            if r1 == r2 {
                assert((new_name + p1.skip(old_name.len() as int)).skip(new_name.len() as int)
                    =~= p1.skip(old_name.len() as int));
                assert((new_name + p2.skip(old_name.len() as int)).skip(new_name.len() as int)
                    =~= p2.skip(old_name.len() as int));
                assert(p1.skip(old_name.len() as int) == p2.skip(old_name.len() as int));
                assert(p1 == p2);
            }
        }
    } else if folder_affected(p1, old_name) || folder_affected(p2, old_name) {
        let a = if folder_affected(p1, old_name) { p1 } else { p2 };
        let u = if folder_affected(p1, old_name) { p2 } else { p1 };
        let ra = rename_path(a, old_name, new_name);
        if ra == u {
            if a == old_name {
                assert(u == new_name);
                assert(contains_path(pre, new_name));
                assert(false);
            } else {
                lemma_affected_decompose(a, old_name);
                assert(u == new_name + a.skip(old_name.len() as int));
                assert(u.take(new_name.len() as int) =~= new_name);
                assert(u[new_name.len() as int] == a.skip(old_name.len() as int)[0]);
                assert(is_ancestor_of(new_name, u));
                lemma_no_orphan_descendants(pre, new_name, u);
                assert(false);
            }
        }
    }
}

/// After a folder rename the snapshot is well-formed again, the folder
/// stands at its new identifier, and every entry corresponds one-to-one to
/// an entry of the old snapshot through `rename_path`.
pub proof fn lemma_rename_folder_post(
    pre: Seq<EntryV>,
    post: Seq<EntryV>,
    old_name: Seq<char>,
    new_name: Seq<char>,
)
    requires
        entries_wf(pre),
        rename_folder_ok(pre, old_name, new_name),
        folder_renamed(pre, post, old_name, new_name),
    ensures
        entries_wf(post),
        is_dir_at(post, new_name),
        post.len() == pre.len(),
        forall|p: Seq<char>|
            #[trigger] contains_path(pre, p) ==> contains_path(
                post,
                rename_path(p, old_name, new_name),
            ),
        forall|q: Seq<char>|
            #[trigger] contains_path(post, q) ==> exists|p: Seq<char>|
                contains_path(pre, p) && q == rename_path(p, old_name, new_name),
        forall|p: Seq<char>|
            #[trigger] contains_path(pre, p) ==> (is_dir_at(pre, p) <==> is_dir_at(
                post,
                rename_path(p, old_name, new_name),
            )) && (is_file_at(pre, p) <==> is_file_at(post, rename_path(p, old_name, new_name))),
{
    assert(post.len() == pre.len());
    assert forall|i: int| 0 <= i < post.len() implies #[trigger] post[i] == renamed_entry(
        pre[i],
        old_name,
        new_name,
    ) by {}
    // Uniqueness.
    assert forall|i: int, j: int|
        #![trigger post[i].path, post[j].path]
        0 <= i < post.len() && 0 <= j < post.len() && i != j implies post[i].path
        != post[j].path by {
        lemma_rename_path_injective(pre, old_name, new_name, pre[i].path, pre[j].path);
    }
    // Cleanliness.
    assert forall|i: int| 0 <= i < post.len() implies is_clean_path(#[trigger] post[i].path) by {
        let p = pre[i].path;
        if p == old_name {
        } else if is_ancestor_of(old_name, p) {
            crate::paths::lemma_clean_replace_prefix(old_name, new_name, p);
        }
    }
    // Mapping facts.
    assert forall|p: Seq<char>| #[trigger] contains_path(pre, p) implies contains_path(
        post,
        rename_path(p, old_name, new_name),
    ) by {
        let i = choose|i: int| 0 <= i < pre.len() && pre[i].path == p;
        assert(post[i].path == rename_path(p, old_name, new_name));
    }
    assert forall|q: Seq<char>| #[trigger] contains_path(post, q) implies exists|p: Seq<char>|
        contains_path(pre, p) && q == rename_path(p, old_name, new_name) by {
        let i = choose|i: int| 0 <= i < post.len() && post[i].path == q;
        assert(contains_path(pre, pre[i].path) && q == rename_path(
            pre[i].path,
            old_name,
            new_name,
        ));
    }
    // Flags travel with the rewrite.
    assert forall|p: Seq<char>| #[trigger] contains_path(pre, p) implies (is_dir_at(pre, p)
        <==> is_dir_at(post, rename_path(p, old_name, new_name))) && (is_file_at(pre, p)
        <==> is_file_at(post, rename_path(p, old_name, new_name))) by {
        let i = choose|i: int| 0 <= i < pre.len() && pre[i].path == p;
        let q = rename_path(p, old_name, new_name);
        assert(post[i].path == q && post[i].is_dir == pre[i].is_dir);
        if is_dir_at(pre, p) {
            let m = choose|m: int| 0 <= m < pre.len() && pre[m].path == p && pre[m].is_dir;
            assert(m == i);
            assert(post[i].is_dir);
        }
        if is_file_at(pre, p) {
            let m = choose|m: int| 0 <= m < pre.len() && pre[m].path == p && !pre[m].is_dir;
            assert(m == i);
        }
        if is_dir_at(post, q) {
            let m = choose|m: int| 0 <= m < post.len() && post[m].path == q && post[m].is_dir;
            assert(m == i);
        }
        if is_file_at(post, q) {
            let m = choose|m: int| 0 <= m < post.len() && post[m].path == q && !post[m].is_dir;
            assert(m == i);
        }
    }
    // The folder now stands at the new identifier.
    let d = choose|d: int| 0 <= d < pre.len() && pre[d].path == old_name && pre[d].is_dir;
    assert(post[d].path == new_name && post[d].is_dir);
    assert(is_dir_at(post, new_name));
    // Parents remain present.
    assert forall|i: int| 0 <= i < post.len() implies parent_present(
        post,
        #[trigger] post[i].path,
    ) by {
        let p = pre[i].path;
        let q = post[i].path;
        assert(is_clean_path(p));
        if p == old_name {
            // q == new_name, whose parent is present and unaffected.
            if parent_of(new_name).len() > 0 {
                assert(is_dir_at(pre, parent_of(new_name)));
                let m = choose|m: int|
                    0 <= m < pre.len() && pre[m].path == parent_of(new_name) && pre[m].is_dir;
                if folder_affected(parent_of(new_name), old_name) {
                    lemma_parent_in_affected(old_name, new_name);
                    assert(false);
                }
                assert(post[m].path == parent_of(new_name) && post[m].is_dir);
                assert(is_dir_at(post, parent_of(new_name)));
            }
        } else if is_ancestor_of(old_name, p) {
            crate::paths::lemma_clean_replace_prefix(old_name, new_name, p);
            if parent_of(p) == old_name {
                assert(parent_of(q) == new_name);
                assert(post[d].path == new_name && post[d].is_dir);
                assert(is_dir_at(post, new_name));
            } else {
                crate::paths::lemma_last_index_of_bounds(p, '/');
                crate::paths::lemma_ancestor_parent(old_name, p);
                assert(is_ancestor_of(old_name, parent_of(p)));
                assert(parent_of(q) == new_name + parent_of(p).skip(old_name.len() as int));
                assert(parent_of(q) == rename_path(parent_of(p), old_name, new_name));
                assert(parent_present(pre, p));
                assert(parent_of(p).len() > 0);
                assert(is_dir_at(pre, parent_of(p)));
                let m = choose|m: int|
                    0 <= m < pre.len() && pre[m].path == parent_of(p) && pre[m].is_dir;
                assert(post[m].path == rename_path(parent_of(p), old_name, new_name)
                    && post[m].is_dir);
                assert(is_dir_at(post, parent_of(q)));
            }
        } else {
            // Unaffected entry: its parent is unaffected too.
            assert(q == p);
            if parent_of(p).len() > 0 {
                assert(parent_present(pre, p));
                assert(is_dir_at(pre, parent_of(p)));
                if folder_affected(parent_of(p), old_name) {
                    lemma_parent_in_affected(old_name, p);
                    assert(false);
                }
                let m = choose|m: int|
                    0 <= m < pre.len() && pre[m].path == parent_of(p) && pre[m].is_dir;
                assert(post[m].path == parent_of(p) && post[m].is_dir);
                assert(is_dir_at(post, parent_of(p)));
            }
        }
    }
}

/// The same well-formedness argument for a file rename.
proof fn lemma_rename_file_wf(pre: Seq<EntryV>, post: Seq<EntryV>, i: int, x: EntryV)
    requires
        entries_wf(pre),
        0 <= i < pre.len(),
        !pre[i].is_dir,
        !x.is_dir,
        is_clean_path(x.path),
        parent_present(pre, x.path),
        !contains_path(pre, x.path),
        post == pre.remove(i).push(x),
    ensures
        entries_wf(post),
{
    lemma_remove_effect(pre, i);
    lemma_write_like_wf(pre, post, i, x);
}

} // verus!
