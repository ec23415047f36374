//! The materialized folder tree handed to callers: an immutable snapshot of
//! one subtree, with every node's identifier derived from its current path.

use vstd::prelude::*;
use crate::model::{EntryV, is_dir_at, is_file_at, contains_path};
use crate::paths::{name_of, parent_of, is_ancestor_of};

verus! {

/// A leaf of the tree: a file's identifier and final path segment.
#[derive(Clone, Debug)]
pub struct FileEntry {
    pub id: String,
    pub name: String,
}

/// A directory node: identifier, final segment, the files directly inside,
/// and the direct subfolders. The storage root has the empty identifier and
/// the empty name.
#[derive(Debug)]
pub struct Folder {
    pub id: String,
    pub name: String,
    pub files: Vec<FileEntry>,
    pub subfolders: Vec<Folder>,
}

/// The file entries `fs` are exactly the files of snapshot `s` directly
/// inside the directory `prefix`, each labelled with its identifier and
/// final segment, without duplicates (in unspecified order).
pub open spec fn files_match(fs: Seq<FileEntry>, s: Seq<EntryV>, prefix: Seq<char>) -> bool {
    &&& forall|i: int|
        0 <= i < fs.len() ==> is_file_at(s, #[trigger] fs[i].id@) && parent_of(fs[i].id@) == prefix
            && fs[i].name@ == name_of(fs[i].id@)
    &&& forall|i: int, j: int|
        #![trigger fs[i].id, fs[j].id]
        0 <= i < fs.len() && 0 <= j < fs.len() && i != j ==> fs[i].id@ != fs[j].id@
    &&& forall|k: int|
        0 <= k < s.len() && !s[k].is_dir && parent_of(#[trigger] s[k].path) == prefix ==> exists|
            i: int,
        | 0 <= i < fs.len() && fs[i].id@ == s[k].path
}

/// `f` is a faithful materialization of the subtree of snapshot `s` rooted
/// at the directory `prefix`: its identifier and name are path-derived, its
/// files and subfolders are exactly the direct children, and every subfolder
/// recursively matches in turn.
pub open spec fn folder_matches(f: Folder, s: Seq<EntryV>, prefix: Seq<char>) -> bool
    decreases f,
{
    &&& f.id@ == prefix
    &&& f.name@ == name_of(prefix)
    &&& files_match(f.files@, s, prefix)
    &&& forall|i: int|
        0 <= i < f.subfolders@.len() ==> is_dir_at(s, #[trigger] f.subfolders@[i].id@)
            && parent_of(f.subfolders@[i].id@) == prefix
    &&& forall|i: int, j: int|
        #![trigger f.subfolders@[i].id, f.subfolders@[j].id]
        0 <= i < f.subfolders@.len() && 0 <= j < f.subfolders@.len() && i != j
            ==> f.subfolders@[i].id@ != f.subfolders@[j].id@
    &&& forall|k: int|
        0 <= k < s.len() && s[k].is_dir && parent_of(#[trigger] s[k].path) == prefix ==> exists|
            i: int,
        | 0 <= i < f.subfolders@.len() && f.subfolders@[i].id@ == s[k].path
    &&& forall|i: int|
        0 <= i < f.subfolders@.len() ==> folder_matches(
            #[trigger] f.subfolders@[i],
            s,
            f.subfolders@[i].id@,
        )
}

/// Some node of the tree `f` (excluding `f` itself) carries the identifier
/// `p`.
pub open spec fn tree_has_id(f: Folder, p: Seq<char>) -> bool
    decreases f,
{
    ||| exists|i: int| 0 <= i < f.files@.len() && f.files@[i].id@ == p
    ||| exists|i: int| 0 <= i < f.subfolders@.len() && f.subfolders@[i].id@ == p
    ||| exists|i: int|
        0 <= i < f.subfolders@.len() && tree_has_id(#[trigger] f.subfolders@[i], p)
}

/// Soundness of the materialization: every identifier in a matching tree
/// names an entry of the snapshot lying strictly inside the subtree.
pub proof fn lemma_tree_has_id_sound(f: Folder, s: Seq<EntryV>, prefix: Seq<char>, p: Seq<char>)
    requires
        folder_matches(f, s, prefix),
        tree_has_id(f, p),
    ensures
        contains_path(s, p),
        prefix.len() > 0 ==> is_ancestor_of(prefix, p) || parent_of(p) == prefix,
    decreases f,
{
    if exists|i: int| 0 <= i < f.files@.len() && f.files@[i].id@ == p {
        let i = choose|i: int| 0 <= i < f.files@.len() && f.files@[i].id@ == p;
        assert(is_file_at(s, p));
        let k = choose|k: int| 0 <= k < s.len() && s[k].path == p && !s[k].is_dir;
        assert(contains_path(s, p));
    } else if exists|i: int| 0 <= i < f.subfolders@.len() && f.subfolders@[i].id@ == p {
        let i = choose|i: int| 0 <= i < f.subfolders@.len() && f.subfolders@[i].id@ == p;
        assert(is_dir_at(s, p));
        let k = choose|k: int| 0 <= k < s.len() && s[k].path == p && s[k].is_dir;
        assert(contains_path(s, p));
    } else {
        let i = choose|i: int|
            0 <= i < f.subfolders@.len() && tree_has_id(#[trigger] f.subfolders@[i], p);
        let sub = f.subfolders@[i];
        lemma_tree_has_id_sound(sub, s, sub.id@, p);
        if prefix.len() > 0 {
            if parent_of(p) == sub.id@ {
                lemma_below_parent(prefix, sub.id@, p);
            } else {
                assert(is_ancestor_of(sub.id@, p));
                lemma_below_parent(prefix, sub.id@, p);
            }
        }
    }
}

/// If `q`'s parent is the non-empty `prefix` and `p` lies at or strictly
/// below `q`, then `p` lies strictly below `prefix` or directly inside it.
pub proof fn lemma_below_parent(prefix: Seq<char>, q: Seq<char>, p: Seq<char>)
    requires
        prefix.len() > 0,
        parent_of(q) == prefix,
        parent_of(p) == q || is_ancestor_of(q, p),
    ensures
        is_ancestor_of(prefix, p) || parent_of(p) == prefix,
{
    crate::paths::lemma_last_index_of_bounds(q, '/');
    let k = crate::paths::last_index_of(q, '/');
    assert(k >= 0);
    assert(prefix == q.take(k));
    assert(prefix.len() == k);
    if parent_of(p) == q {
        // p == q + '/' + name; prefix is an ancestor of p through q.
        crate::paths::lemma_last_index_of_bounds(p, '/');
        let kp = crate::paths::last_index_of(p, '/');
        assert(kp >= 0);
        assert(p.take(kp) == q);
        assert(p.take(kp).take(prefix.len() as int) =~= p.take(prefix.len() as int));
        assert(p.take(kp)[prefix.len() as int] == p[prefix.len() as int]);
        assert(q[prefix.len() as int] == '/');
        assert(is_ancestor_of(prefix, p));
    } else {
        // prefix == q.take(k); p.take(prefix.len()) == q.take(prefix.len())
        // since prefix.len() < q.len() <= p.len().
        assert(p.take(q.len() as int) == q);
        assert(p.take(q.len() as int).take(prefix.len() as int) =~= p.take(prefix.len() as int));
        assert(q.take(prefix.len() as int) =~= prefix);
        assert(p[prefix.len() as int] == q[prefix.len() as int]);
        assert(q[prefix.len() as int] == '/');
        assert(is_ancestor_of(prefix, p));
    }
}

} // verus!
