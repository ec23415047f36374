//! The laws of the storage model that relate several operations: proved
//! here once and for all inputs, over the same spec functions that the
//! operations' own contracts use.

use vstd::prelude::*;
use crate::model::{
    EntryV, contains_path, is_dir_at, is_file_at, content_at, entries_wf, lemma_entry_at,
    lemma_push_effect, lemma_remove_effect, count_dirs, count_files, lemma_counts_pointwise,
};
use crate::paths::{is_clean_path, parent_of, is_ancestor_of};
use crate::store::{
    created_entry, create_file_ok, file_written, folder_deleted, folder_affected, folder_renamed,
    rename_folder_ok, rename_path, lemma_rename_folder_post,
};
use crate::tree::{Folder, folder_matches, tree_has_id, lemma_tree_has_id_sound};

verus! {

/// Create-then-write-then-read round trip: after creating a file at a valid
/// name and writing content to it, the file holds exactly that content, so
/// reading it back yields what was written.
pub proof fn lemma_create_write_read_round_trip(
    pre: Seq<EntryV>,
    mid: Seq<EntryV>,
    post: Seq<EntryV>,
    name: Seq<char>,
    content: Seq<char>,
)
    requires
        entries_wf(pre),
        create_file_ok(pre, name),
        mid == pre.push(created_entry(name)),
        file_written(mid, post, name, content),
    ensures
        is_file_at(post, name),
        content_at(post, name) == content,
{
    lemma_push_effect(pre, created_entry(name));
    lemma_entry_at(mid, pre.len() as int);
    let i = crate::model::index_of_path(mid, name);
    assert(i == pre.len() as int);
    lemma_remove_effect(mid, i);
    let x = EntryV { path: name, is_dir: false, content };
    assert(!contains_path(mid.remove(i), name));
    lemma_push_effect(mid.remove(i), x);
}

/// Renaming a folder rewrites exactly the identifiers below it, keeps every
/// other identifier, preserves each entry's kind, and leaves the total
/// entry count unchanged; a listing taken afterwards shows only identifiers
/// of the renamed snapshot.
pub proof fn lemma_rename_folder_relabels_tree(
    pre: Seq<EntryV>,
    post: Seq<EntryV>,
    old_name: Seq<char>,
    new_name: Seq<char>,
    f: Folder,
)
    requires
        entries_wf(pre),
        rename_folder_ok(pre, old_name, new_name),
        folder_renamed(pre, post, old_name, new_name),
        folder_matches(f, post, Seq::<char>::empty()),
    ensures
        post.len() == pre.len(),
        count_dirs(post) == count_dirs(pre),
        count_files(post) == count_files(pre),
        forall|p: Seq<char>|
            #[trigger] contains_path(pre, p) && folder_affected(p, old_name) ==> contains_path(
                post,
                rename_path(p, old_name, new_name),
            ),
        forall|p: Seq<char>|
            #[trigger] contains_path(pre, p) && !folder_affected(p, old_name) ==> contains_path(
                post,
                p,
            ),
        forall|q: Seq<char>|
            #[trigger] contains_path(post, q) ==> exists|p: Seq<char>|
                contains_path(pre, p) && q == rename_path(p, old_name, new_name),
        forall|p: Seq<char>|
            #[trigger] contains_path(pre, p) ==> (is_dir_at(pre, p) <==> is_dir_at(
                post,
                rename_path(p, old_name, new_name),
            )) && (is_file_at(pre, p) <==> is_file_at(post, rename_path(p, old_name, new_name))),
        forall|q: Seq<char>| #[trigger] tree_has_id(f, q) ==> contains_path(post, q),
{
    lemma_rename_folder_post(pre, post, old_name, new_name);
    assert forall|i: int| 0 <= i < pre.len() implies pre[i].is_dir == post[i].is_dir by {}
    lemma_counts_pointwise(pre, post);
    assert forall|q: Seq<char>| #[trigger] tree_has_id(f, q) implies contains_path(post, q) by {
        lemma_tree_has_id_sound(f, post, Seq::<char>::empty(), q);
    }
}

/// Deleting a folder removes it and all its descendants from any listing
/// taken afterwards: no identifier at or below the deleted folder appears
/// in the materialized tree.
pub proof fn lemma_delete_folder_removes_descendants(
    pre: Seq<EntryV>,
    post: Seq<EntryV>,
    name: Seq<char>,
    f: Folder,
)
    requires
        folder_deleted(pre, post, name),
        folder_matches(f, post, Seq::<char>::empty()),
    ensures
        forall|p: Seq<char>| folder_affected(p, name) ==> !#[trigger] tree_has_id(f, p),
{
    assert forall|p: Seq<char>| folder_affected(p, name) implies !#[trigger] tree_has_id(
        f,
        p,
    ) by {
        if tree_has_id(f, p) {
            lemma_tree_has_id_sound(f, post, Seq::<char>::empty(), p);
            assert(contains_path(post, p));
            assert(!folder_affected(p, name));
        }
    }
}

} // verus!
