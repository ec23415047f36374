//! Path strings and entry identities.
//!
//! Every file and folder is identified by its path relative to the storage
//! root, written with forward-slash separators. The empty string is reserved
//! for the root itself. A usable relative path is *clean*: non-empty, with
//! non-empty segments, none of which is `.` or `..`, and with no leading,
//! trailing or doubled separator — this is what keeps a caller-supplied
//! identifier from resolving outside the storage root.

use vstd::prelude::*;
use crate::errors::FsError;

verus! {

/// Index of the last occurrence of `c` in `s`, or -1 if `c` does not occur.
pub open spec fn last_index_of(s: Seq<char>, c: char) -> int
    decreases s.len(),
{
    if s.len() == 0 {
        -1
    } else if s[s.len() - 1] == c {
        s.len() - 1
    } else {
        last_index_of(s.drop_last(), c)
    }
}

pub proof fn lemma_last_index_of_bounds(s: Seq<char>, c: char)
    ensures
        -1 <= last_index_of(s, c) < s.len(),
        last_index_of(s, c) >= 0 ==> s[last_index_of(s, c)] == c,
        forall|j: int| last_index_of(s, c) < j < s.len() ==> s[j] != c,
    decreases s.len(),
{
    if s.len() == 0 {
    } else if s[s.len() - 1] == c {
    } else {
        lemma_last_index_of_bounds(s.drop_last(), c);
        assert forall|j: int| last_index_of(s, c) < j < s.len() implies s[j] != c by {
            if j < s.len() - 1 {
                assert(s.drop_last()[j] == s[j]);
            }
        }
    }
}

pub proof fn lemma_last_index_of_witness(s: Seq<char>, c: char, k: int)
    requires
        0 <= k < s.len(),
        s[k] == c,
        forall|j: int| k < j < s.len() ==> s[j] != c,
    ensures
        last_index_of(s, c) == k,
    decreases s.len(),
{
    if k == s.len() - 1 {
    } else {
        assert(s[s.len() - 1] != c);
        assert forall|j: int| k < j < s.drop_last().len() implies s.drop_last()[j] != c by {
            assert(s.drop_last()[j] == s[j]);
        }
        assert(s.drop_last()[k] == s[k]);
        lemma_last_index_of_witness(s.drop_last(), c, k);
    }
}

pub proof fn lemma_last_index_of_absent(s: Seq<char>, c: char)
    requires
        forall|j: int| 0 <= j < s.len() ==> s[j] != c,
    ensures
        last_index_of(s, c) == -1,
    decreases s.len(),
{
    if s.len() == 0 {
    } else {
        assert forall|j: int| 0 <= j < s.drop_last().len() implies s.drop_last()[j] != c by {
            assert(s.drop_last()[j] == s[j]);
        }
        lemma_last_index_of_absent(s.drop_last(), c);
    }
}

/// The path of the directory containing `p`: everything before the last
/// separator, or the empty (root) path if `p` has no separator.
pub open spec fn parent_of(p: Seq<char>) -> Seq<char> {
    if last_index_of(p, '/') < 0 {
        Seq::empty()
    } else {
        p.take(last_index_of(p, '/'))
    }
}

/// The final segment of `p`: everything after the last separator.
pub open spec fn name_of(p: Seq<char>) -> Seq<char> {
    p.skip(last_index_of(p, '/') + 1)
}

/// A single well-formed path segment: non-empty, free of separators, and
/// neither `.` nor `..`.
pub open spec fn seg_ok(s: Seq<char>) -> bool {
    &&& s.len() > 0
    &&& forall|j: int| 0 <= j < s.len() ==> s[j] != '/'
    &&& s != seq!['.']
    &&& s != seq!['.', '.']
}

/// A clean relative path: one or more well-formed segments joined by single
/// separators.
pub open spec fn is_clean_path(p: Seq<char>) -> bool
    decreases p.len(),
    via is_clean_path_decreases
{
    if p.len() == 0 {
        false
    } else if last_index_of(p, '/') < 0 {
        seg_ok(p)
    } else {
        seg_ok(p.skip(last_index_of(p, '/') + 1)) && is_clean_path(p.take(last_index_of(p, '/')))
    }
}

#[via_fn]
proof fn is_clean_path_decreases(p: Seq<char>) {
    lemma_last_index_of_bounds(p, '/');
}

/// `q` lies strictly above `p` in the tree: `p` is `q`, a separator, and a
/// non-empty remainder.
pub open spec fn is_ancestor_of(q: Seq<char>, p: Seq<char>) -> bool {
    &&& q.len() < p.len()
    &&& p.take(q.len() as int) == q
    &&& p[q.len() as int] == '/'
}

pub proof fn lemma_parent_of_join(p: Seq<char>, name: Seq<char>)
    requires
        name.len() > 0,
        forall|j: int| 0 <= j < name.len() ==> name[j] != '/',
    ensures
        last_index_of(p + seq!['/'] + name, '/') == p.len(),
        parent_of(p + seq!['/'] + name) == p,
        name_of(p + seq!['/'] + name) == name,
        is_ancestor_of(p, p + seq!['/'] + name),
{
    let q = p + seq!['/'] + name;
    assert(q[p.len() as int] == '/');
    assert forall|j: int| p.len() < j < q.len() implies q[j] != '/' by {
        assert(q[j] == name[j - p.len() - 1]);
    }
    lemma_last_index_of_witness(q, '/', p.len() as int);
    assert(q.take(p.len() as int) =~= p);
    assert(q.skip(p.len() as int + 1) =~= name);
}

pub proof fn lemma_clean_decompose(p: Seq<char>)
    requires
        is_clean_path(p),
        last_index_of(p, '/') >= 0,
    ensures
        p == parent_of(p) + seq!['/'] + name_of(p),
        is_clean_path(parent_of(p)),
        seg_ok(name_of(p)),
        is_ancestor_of(parent_of(p), p),
        parent_of(p).len() < p.len(),
{
    lemma_last_index_of_bounds(p, '/');
    let k = last_index_of(p, '/');
    assert(p =~= p.take(k) + seq!['/'] + p.skip(k + 1));
    assert(p.take(k) == parent_of(p));
    assert(is_ancestor_of(parent_of(p), p));
}

pub proof fn lemma_parent_shorter(p: Seq<char>)
    requires
        p.len() > 0,
    ensures
        parent_of(p).len() < p.len(),
        name_of(p).len() <= p.len(),
{
    lemma_last_index_of_bounds(p, '/');
}

pub proof fn lemma_ancestor_parent(root: Seq<char>, p: Seq<char>)
    requires
        is_ancestor_of(root, p),
    ensures
        last_index_of(p, '/') >= root.len(),
        parent_of(p) == root || is_ancestor_of(root, parent_of(p)),
        parent_of(p).len() >= root.len(),
{
    lemma_last_index_of_bounds(p, '/');
    let k = last_index_of(p, '/');
    assert(p[root.len() as int] == '/');
    assert(k >= root.len());
    if k == root.len() {
        assert(p.take(k) =~= root);
    } else {
        assert(p.take(k).take(root.len() as int) =~= p.take(root.len() as int));
        assert(p.take(k)[root.len() as int] == p[root.len() as int]);
        assert(is_ancestor_of(root, parent_of(p)));
    }
}

pub proof fn lemma_ancestor_trans(a: Seq<char>, b: Seq<char>, c: Seq<char>)
    requires
        is_ancestor_of(a, b),
        is_ancestor_of(b, c),
    ensures
        is_ancestor_of(a, c),
{
    assert(c.take(b.len() as int).take(a.len() as int) =~= c.take(a.len() as int));
    assert(c.take(b.len() as int)[a.len() as int] == c[a.len() as int]);
    assert(c.take(a.len() as int) =~= a);
}

pub proof fn lemma_clean_take_slash(p: Seq<char>, j: int)
    requires
        is_clean_path(p),
        0 <= j < p.len(),
        p[j] == '/',
    ensures
        is_clean_path(p.take(j)),
        is_ancestor_of(p.take(j), p),
    decreases p.len(),
{
    lemma_last_index_of_bounds(p, '/');
    let k = last_index_of(p, '/');
    assert(k >= j);
    assert(p.take(j).len() == j);
    assert(p.take(j) =~= p.take(j));
    if j == k {
        assert(is_clean_path(p.take(j)));
    } else {
        lemma_clean_decompose(p);
        assert(p.take(k)[j] == p[j]);
        lemma_clean_take_slash(p.take(k), j);
        assert(p.take(k).take(j) =~= p.take(j));
    }
    assert(p.take(j).take(p.take(j).len() as int) =~= p.take(j));
}

/// Replacing the prefix `old` of a path strictly below it with `new` yields a
/// clean path again, whose parent is the rewrite of the original parent.
pub proof fn lemma_clean_replace_prefix(old: Seq<char>, new: Seq<char>, p: Seq<char>)
    requires
        is_clean_path(old),
        is_clean_path(new),
        is_clean_path(p),
        is_ancestor_of(old, p),
    ensures
        is_clean_path(new + p.skip(old.len() as int)),
        parent_of(p) == old ==> parent_of(new + p.skip(old.len() as int)) == new,
        parent_of(p) != old ==> is_ancestor_of(old, parent_of(p)) && parent_of(
            new + p.skip(old.len() as int),
        ) == new + parent_of(p).skip(old.len() as int),
        name_of(new + p.skip(old.len() as int)) == name_of(p),
    decreases p.len(),
{
    lemma_ancestor_parent(old, p);
    lemma_last_index_of_bounds(p, '/');
    lemma_clean_decompose(p);
    let par = parent_of(p);
    let nm = name_of(p);
    if par == old {
        assert(p.skip(old.len() as int) =~= seq!['/'] + nm);
        assert(new + p.skip(old.len() as int) =~= new + seq!['/'] + nm);
        let q = new + seq!['/'] + nm;
        lemma_parent_of_join(new, nm);
        assert(q.take(new.len() as int) =~= new);
        assert(q.skip(new.len() as int + 1) =~= nm);
        assert(is_clean_path(q));
    } else {
        lemma_clean_replace_prefix(old, new, par);
        let rwpar = new + par.skip(old.len() as int);
        assert(p.skip(old.len() as int) =~= par.skip(old.len() as int) + seq!['/'] + nm);
        assert(new + p.skip(old.len() as int) =~= rwpar + seq!['/'] + nm);
        let q = rwpar + seq!['/'] + nm;
        lemma_parent_of_join(rwpar, nm);
        assert(q.take(rwpar.len() as int) =~= rwpar);
        assert(q.skip(rwpar.len() as int + 1) =~= nm);
        assert(is_clean_path(q));
    }
}

/// Joining a clean relative path under a non-empty root and stripping the
/// root again are mutually inverse; this is the identity round-trip law.
pub open spec fn joined(root: Seq<char>, rel: Seq<char>) -> Seq<char> {
    root + seq!['/'] + rel
}

/// What stripping the storage root from an absolute path yields: the empty
/// identifier for the root itself, the remainder for a path below it, and
/// nothing for a path outside it.
pub open spec fn strip_id(abs: Seq<char>, root: Seq<char>) -> Option<Seq<char>> {
    if abs == root {
        Some(Seq::<char>::empty())
    } else if exists|rel: Seq<char>| abs == joined(root, rel) {
        Some(choose|rel: Seq<char>| abs == joined(root, rel))
    } else {
        None
    }
}

pub proof fn lemma_joined_injective(root: Seq<char>, a: Seq<char>, b: Seq<char>)
    requires
        joined(root, a) == joined(root, b),
    ensures
        a == b,
{
    assert(joined(root, a).skip(root.len() as int + 1) =~= a);
    assert(joined(root, b).skip(root.len() as int + 1) =~= b);
}

// ---------------------------------------------------------------------------
// Executable counterparts
// ---------------------------------------------------------------------------

/// Index of the last occurrence of `c` in `s`, if any.
pub fn find_last(s: &str, c: char) -> (r: Option<usize>)
    ensures
        match r {
            Some(k) => last_index_of(s@, c) == k as int,
            None => last_index_of(s@, c) == -1,
        },
{
    let n = s.unicode_len();
    let mut i = n;
    while i > 0
        invariant
            i <= n,
            n as nat == s@.len(),
            forall|j: int| i <= j < s@.len() ==> s@[j] != c,
        decreases i,
    {
        let ch = s.get_char(i - 1);
        if ch == c {
            proof {
                lemma_last_index_of_witness(s@, c, i - 1);
            }
            return Some(i - 1);
        }
        i = i - 1;
    }
    proof {
        lemma_last_index_of_absent(s@, c);
    }
    None
}

/// Character-wise string equality, specified over the views.
pub fn eq_str(a: &str, b: &str) -> (r: bool)
    ensures
        r == (a@ == b@),
{
    let na = a.unicode_len();
    let nb = b.unicode_len();
    if na != nb {
        return false;
    }
    let mut i: usize = 0;
    while i < na
        invariant
            i <= na,
            na as nat == a@.len(),
            na as nat == b@.len(),
            forall|j: int| 0 <= j < i ==> a@[j] == b@[j],
        decreases na - i,
    {
        if a.get_char(i) != b.get_char(i) {
            return false;
        }
        i = i + 1;
    }
    proof {
        assert(a@ =~= b@);
    }
    true
}

/// The containing directory's identifier; the empty string for a top-level
/// name.
pub fn parent_string(s: &str) -> (r: String)
    ensures
        r@ == parent_of(s@),
{
    proof {
        lemma_last_index_of_bounds(s@, '/');
    }
    match find_last(s, '/') {
        None => String::new(),
        Some(k) => {
            let sub = s.substring_char(0, k);
            proof {
                assert(sub@ =~= s@.take(k as int));
            }
            String::from_str(sub)
        },
    }
}

/// The final path segment.
pub fn name_string(s: &str) -> (r: String)
    ensures
        r@ == name_of(s@),
{
    proof {
        lemma_last_index_of_bounds(s@, '/');
    }
    let n = s.unicode_len();
    match find_last(s, '/') {
        None => {
            proof {
                assert(s@.skip(0) =~= s@);
            }
            String::from_str(s)
        },
        Some(k) => {
            let sub = s.substring_char(k + 1, n);
            proof {
                assert(sub@ =~= s@.skip(k + 1));
            }
            String::from_str(sub)
        },
    }
}

fn seg_ok_exec(s: &str) -> (r: bool)
    ensures
        r == seg_ok(s@),
{
    let n = s.unicode_len();
    if n == 0 {
        return false;
    }
    match find_last(s, '/') {
        Some(_) => {
            proof {
                lemma_last_index_of_bounds(s@, '/');
            }
            return false;
        },
        None => {
            proof {
                lemma_last_index_of_bounds(s@, '/');
            }
        },
    }
    if n == 1 && s.get_char(0) == '.' {
        proof {
            assert(s@ =~= seq!['.']);
        }
        return false;
    }
    if n == 2 && s.get_char(0) == '.' && s.get_char(1) == '.' {
        proof {
            assert(s@ =~= seq!['.', '.']);
        }
        return false;
    }
    proof {
        if s@ == seq!['.'] {
            assert(s@.len() == 1 && s@[0] == '.');
        }
        if s@ == seq!['.', '.'] {
            assert(s@.len() == 2 && s@[0] == '.' && s@[1] == '.');
        }
    }
    true
}

/// Whether `s` is a clean relative path.
pub fn is_clean_string(s: &str) -> (r: bool)
    ensures
        r == is_clean_path(s@),
    decreases s@.len(),
{
    let n = s.unicode_len();
    if n == 0 {
        return false;
    }
    match find_last(s, '/') {
        None => seg_ok_exec(s),
        Some(k) => {
            proof {
                lemma_last_index_of_bounds(s@, '/');
            }
            let name = s.substring_char(k + 1, n);
            proof {
                assert(name@ =~= s@.skip(k + 1));
            }
            if !seg_ok_exec(name) {
                false
            } else {
                let front = s.substring_char(0, k);
                proof {
                    assert(front@ =~= s@.take(k as int));
                }
                is_clean_string(front)
            }
        },
    }
}

/// Whether a filename's extension (after the last `.` of its final segment)
/// is on the allow-list.
pub open spec fn has_extension(filename: Seq<char>) -> bool {
    last_index_of(name_of(filename), '.') >= 0
}

/// The substring after the last `.` of the final segment.
pub open spec fn extension_of(filename: Seq<char>) -> Seq<char> {
    name_of(filename).skip(last_index_of(name_of(filename), '.') + 1)
}

/// The fixed extension allow-list.
pub open spec fn allowed_ext(e: Seq<char>) -> bool {
    e == "md"@ || e == "tex"@
}

/// A filename passes the extension gate: it has an extension and the
/// extension is allowed.
pub open spec fn ext_ok(filename: Seq<char>) -> bool {
    has_extension(filename) && allowed_ext(extension_of(filename))
}

/// Validates the file extension of `filename`'s final segment against the
/// allow-list.
pub fn validate_extension(filename: &str) -> (r: Result<(), FsError>)
    ensures
        r is Ok <==> ext_ok(filename@),
        match r {
            Ok(()) => ext_ok(filename@),
            Err(e) => match e {
                FsError::InvalidExtension(m) => !ext_ok(filename@) && (if !has_extension(
                    filename@,
                ) {
                    m@ == "File must have an extension"@
                } else {
                    m@ == "Unsupported file extension: ."@ + extension_of(filename@)
                }),
                _ => false,
            },
        },
{
    let name = name_string(filename);
    let nl = name.as_str().unicode_len();
    match find_last(name.as_str(), '.') {
        None => Err(FsError::InvalidExtension(String::from_str("File must have an extension"))),
        Some(k) => {
            proof {
                lemma_last_index_of_bounds(name@, '.');
            }
            let ext = name.as_str().substring_char(k + 1, nl);
            proof {
                assert(ext@ =~= name@.skip(k + 1));
            }
            if eq_str(ext, "md") || eq_str(ext, "tex") {
                Ok(())
            } else {
                let mut m = String::from_str("Unsupported file extension: .");
                m.append(ext);
                Err(FsError::InvalidExtension(m))
            }
        },
    }
}

/// Whether `p` lies strictly below `root` in the tree.
pub fn is_strictly_under(p: &str, root: &str) -> (r: bool)
    ensures
        r == is_ancestor_of(root@, p@),
{
    let np = p.unicode_len();
    let nr = root.unicode_len();
    if np <= nr {
        return false;
    }
    let head = p.substring_char(0, nr);
    proof {
        assert(head@ =~= p@.take(nr as int));
    }
    if !eq_str(head, root) {
        return false;
    }
    p.get_char(nr) == '/'
}

/// Renders the absolute path of the entry identified by `rel` under `root`.
pub fn join_under(root: &str, rel: &str) -> (r: String)
    ensures
        r@ == joined(root@, rel@),
{
    let mut out = String::from_str(root);
    out.append("/");
    out.append(rel);
    proof {
        reveal_strlit("/");
        assert("/"@ =~= seq!['/']);
    }
    out
}

/// Derives the entry identifier of `abs` relative to `root`, rejecting any
/// path that does not lie under the root.
pub fn compute_id(abs: &str, root: &str) -> (r: Result<String, FsError>)
    ensures
        match r {
            Ok(id) => strip_id(abs@, root@) == Some(id@),
            Err(e) => e == FsError::PathEscapesRoot && strip_id(abs@, root@) is None,
        },
{
    let na = abs.unicode_len();
    let nr = root.unicode_len();
    if eq_str(abs, root) {
        proof {
            assert(strip_id(abs@, root@) == Some(Seq::<char>::empty()));
        }
        return Ok(String::new());
    }
    if na > nr {
        let head = abs.substring_char(0, nr);
        proof {
            assert(head@ =~= abs@.take(nr as int));
        }
        if eq_str(head, root) && abs.get_char(nr) == '/' {
            let id = abs.substring_char(nr + 1, na);
            proof {
                assert(id@ =~= abs@.skip(nr + 1));
                assert(abs@ =~= joined(root@, id@));
                let rel = choose|rel: Seq<char>| abs@ == joined(root@, rel);
                lemma_joined_injective(root@, rel, id@);
            }
            return Ok(String::from_str(id));
        }
    }
    proof {
        if exists|rel: Seq<char>| abs@ == joined(root@, rel) {
            let rel = choose|rel: Seq<char>| abs@ == joined(root@, rel);
            assert(abs@.len() == root@.len() + 1 + rel.len());
            assert(abs@.take(nr as int) =~= root@);
            assert(abs@[nr as int] == '/');
        }
    }
    Err(FsError::PathEscapesRoot)
}

/// Round-trip law of the identity scheme: computing an entry's identifier
/// from its absolute location under the storage root and joining it back
/// reproduces that location; equivalently, stripping after joining yields the
/// original identifier.
pub proof fn lemma_compute_id_round_trip(root: Seq<char>, rel: Seq<char>)
    ensures
        strip_id(joined(root, rel), root) == Some(rel),
{
    let abs = joined(root, rel);
    assert(abs.len() == root.len() + 1 + rel.len());
    if abs == root {
        assert(abs.len() == root.len());
        assert(false);
    }
    assert(exists|x: Seq<char>| abs == joined(root, x));
    let x = choose|x: Seq<char>| abs == joined(root, x);
    lemma_joined_injective(root, x, rel);
}

} // verus!
