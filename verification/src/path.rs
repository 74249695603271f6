//! Paths as bytes: cutting an absolute path into its components, parting
//! it into parent and last name, and putting a path that was typed in some
//! directory into its shortest absolute form.

use vstd::prelude::*;
use vstd::slice::*;
use vstd::string::*;
use crate::text::{decode_text, text_of};

verus! {

/// The byte that separates the components of a path: `/`.
pub const SEPARATOR: u8 = 0x2f;

/// The components closed so far, extended by the one being read if it is
/// not empty.
pub open spec fn close(done: Seq<Seq<u8>>, cur: Seq<u8>) -> Seq<Seq<u8>> {
    if cur.len() > 0 {
        done.push(cur)
    } else {
        done
    }
}

/// Reading the first `n` bytes of a path from the left: the components
/// closed so far, and the bytes of the component being read.
pub open spec fn scan(path: Seq<u8>, n: int) -> (Seq<Seq<u8>>, Seq<u8>)
    decreases n,
{
    if n <= 0 {
        (Seq::empty(), Seq::empty())
    } else {
        let (done, cur) = scan(path, n - 1);
        if path[n - 1] == SEPARATOR {
            (close(done, cur), Seq::empty())
        } else {
            (done, cur.push(path[n - 1]))
        }
    }
}

/// The components of a path: its maximal runs of bytes other than the
/// separator, in order.
pub open spec fn components(path: Seq<u8>) -> Seq<Seq<u8>> {
    let (done, cur) = scan(path, path.len() as int);
    close(done, cur)
}

/// `k` is the position of the last separator of the path.
pub open spec fn is_last_separator(path: Seq<u8>, k: int) -> bool {
    &&& 0 <= k < path.len()
    &&& path[k] == SEPARATOR
    &&& forall|j: int| k < j < path.len() ==> path[j] != SEPARATOR
}

/// The position of the last separator of the path, if it has one.
pub open spec fn last_separator(path: Seq<u8>) -> Option<int> {
    if exists|k: int| is_last_separator(path, k) {
        Some(choose|k: int| is_last_separator(path, k))
    } else {
        None
    }
}

/// The path of the root directory.
pub open spec fn root_path() -> Seq<u8> {
    seq![SEPARATOR]
}

/// A path parted at its last separator into the parent's path and the last
/// name. A parent that would be empty is the root. A path without a
/// separator has no such parts.
pub open spec fn split_parent(path: Seq<u8>) -> Option<(Seq<u8>, Seq<u8>)> {
    match last_separator(path) {
        None => None,
        Some(k) => Some(
            (
                if k == 0 {
                    root_path()
                } else {
                    path.subrange(0, k)
                },
                path.subrange(k + 1, path.len() as int),
            ),
        ),
    }
}

/// As `split_parent`, but a path without a separator names an entry of the
/// root.
pub open spec fn split_parent_or_root(path: Seq<u8>) -> (Seq<u8>, Seq<u8>) {
    match split_parent(path) {
        Some(parts) => parts,
        None => (root_path(), path),
    }
}

/// A path has at most one last separator, and `last_separator` names it.
pub proof fn lemma_last_separator_is(path: Seq<u8>, k: int)
    requires
        is_last_separator(path, k),
    ensures
        last_separator(path) == Some(k),
{
}

/// `last_separator` is `None` exactly when no byte is a separator.
pub proof fn lemma_last_separator_none(path: Seq<u8>)
    ensures
        last_separator(path) is None <==> forall|j: int|
            0 <= j < path.len() ==> path[j] != SEPARATOR,
{
    if last_separator(path) is None {
        lemma_no_separator_from(path, 0);
    }
}

proof fn lemma_no_separator_from(path: Seq<u8>, n: int)
    requires
        0 <= n <= path.len(),
        last_separator(path) is None,
    ensures
        forall|j: int| n <= j < path.len() ==> path[j] != SEPARATOR,
    decreases path.len() - n,
{
    if n < path.len() {
        lemma_no_separator_from(path, n + 1);
        if path[n] == SEPARATOR {
            assert(is_last_separator(path, n));
        }
    }
}

/// The byte sequences that a vector of names holds.
pub open spec fn names_view(names: Seq<Vec<u8>>) -> Seq<Seq<u8>> {
    Seq::new(names.len(), |i: int| names[i]@)
}

/// The name `.`.
pub open spec fn dot() -> Seq<u8> {
    seq![0x2eu8]
}

/// The name `..`.
pub open spec fn dotdot() -> Seq<u8> {
    seq![0x2eu8, 0x2eu8]
}

/// A name as a normalised path holds it: not empty, without a separator,
/// and neither `.` nor `..`.
pub open spec fn plain_name(name: Seq<u8>) -> bool {
    &&& name.len() > 0
    &&& forall|j: int| 0 <= j < name.len() ==> name[j] != SEPARATOR
    &&& name != dot()
    &&& name != dotdot()
}

/// Every name is plain.
pub open spec fn plain_names(names: Seq<Seq<u8>>) -> bool {
    forall|k: int| 0 <= k < names.len() ==> plain_name(#[trigger] names[k])
}

/// Every component of the path is plain.
pub open spec fn plain_path(path: Seq<u8>) -> bool {
    plain_names(components(path))
}

/// What a scan has read depends only on the bytes that it has passed.
pub proof fn lemma_scan_prefix(a: Seq<u8>, b: Seq<u8>, n: int)
    requires
        0 <= n <= a.len(),
        n <= b.len(),
        forall|i: int| 0 <= i < n ==> a[i] == b[i],
    ensures
        scan(a, n) == scan(b, n),
    decreases n,
{
    if n > 0 {
        lemma_scan_prefix(a, b, n - 1);
    }
}

/// Passing bytes that hold no separator extends the component being read.
pub proof fn lemma_scan_run(path: Seq<u8>, start: int, n: int)
    requires
        0 <= start <= n <= path.len(),
        forall|j: int| start <= j < n ==> path[j] != SEPARATOR,
    ensures
        scan(path, n) == (scan(path, start).0, scan(path, start).1 + path.subrange(start, n)),
    decreases n - start,
{
    if n > start {
        lemma_scan_run(path, start, n - 1);
        assert(scan(path, start).1 + path.subrange(start, n) =~= (scan(path, start).1
            + path.subrange(start, n - 1)).push(path[n - 1]));
    }
}

/// The path of the root has no components.
pub proof fn lemma_root_components()
    ensures
        components(root_path()) == Seq::<Seq<u8>>::empty(),
{
    let p = root_path();
    assert(scan(p, 0) == (Seq::<Seq<u8>>::empty(), Seq::<u8>::empty()));
}

/// The components of a path are those of its parent, followed by its last
/// name where that is not empty.
pub proof fn lemma_components_split(path: Seq<u8>)
    ensures
        components(path) == close(
            components(split_parent_or_root(path).0),
            split_parent_or_root(path).1,
        ),
{
    let len = path.len() as int;
    lemma_root_components();
    match last_separator(path) {
        None => {
            lemma_last_separator_none(path);
            lemma_scan_run(path, 0, len);
            assert(Seq::<u8>::empty() + path.subrange(0, len) =~= path);
        },
        Some(k) => {
            let before = path.subrange(0, k);
            lemma_scan_prefix(path, before, k);
            lemma_scan_run(path, k + 1, len);
        },
    }
}

/// Checks whether a path is the path of the root directory.
pub fn is_root_path(path: &[u8]) -> (root: bool)
    ensures
        root == (path@ == root_path()),
{
    let root = path.len() == 1 && path[0] == SEPARATOR;
    proof {
        if root {
            assert(path@ =~= root_path());
        } else if path@.len() == 1 {
        }
    }
    root
}

/// Cuts a path into its components.
pub fn path_components(path: &[u8]) -> (parts: Vec<Vec<u8>>)
    ensures
        names_view(parts@) == components(path@),
{
    let mut done: Vec<Vec<u8>> = Vec::new();
    let mut cur: Vec<u8> = Vec::new();
    let mut i: usize = 0;
    while i < path.len()
        invariant
            i <= path@.len(),
            (names_view(done@), cur@) == scan(path@, i as int),
        decreases path@.len() - i,
    {
        let b: u8 = path[i];
        if b == SEPARATOR {
            if cur.len() > 0 {
                let ghost before = names_view(done@);
                let ghost piece = cur@;
                done.push(cur);
                cur = Vec::new();
            }
        } else {
            cur.push(b);
        }
        i += 1;
    }
    if cur.len() > 0 {
        let ghost before = names_view(done@);
        let ghost piece = cur@;
        done.push(cur);
    }
    done
}

/// Finds the last separator of a path.
pub fn find_last_separator(path: &[u8]) -> (found: Option<usize>)
    ensures
        last_separator(path@) == match found {
            Some(k) => Some(k as int),
            None => None,
        },
        match found {
            Some(k) => k < path@.len(),
            None => true,
        },
{
    let mut i: usize = path.len();
    while i > 0
        invariant
            i <= path@.len(),
            forall|j: int| i <= j < path@.len() ==> path@[j] != SEPARATOR,
        decreases i,
    {
        i -= 1;
        if path[i] == SEPARATOR {
            proof {
                lemma_last_separator_is(path@, i as int);
            }
            return Some(i);
        }
    }
    proof {
        lemma_last_separator_none(path@);
    }
    None
}

/// Parts a path at its last separator into the parent's path and the last
/// name.
pub fn split_path<'a>(path: &'a [u8]) -> (parts: Option<(&'a [u8], &'a [u8])>)
    ensures
        split_parent(path@) == match parts {
            Some((parent, name)) => Some((parent@, name@)),
            None => None,
        },
{
    let len: usize = path.len();
    match find_last_separator(path) {
        None => None,
        Some(k) => {
            let parent = if k == 0 {
                slice_subrange(path, 0, 1)
            } else {
                slice_subrange(path, 0, k)
            };
            let name = slice_subrange(path, k + 1, len);
            Some((parent, name))
        },
    }
}

/// The path that `input` stands for when it is read in the directory
/// `cwd`, before it is put into its shortest form: `input` itself where it
/// starts at the root, `cwd` and `input` with a separator between them
/// otherwise.
pub open spec fn joined(cwd: Seq<u8>, input: Seq<u8>) -> Seq<u8> {
    if input.len() > 0 && input[0] == SEPARATOR {
        input
    } else if cwd.len() > 0 && cwd.last() == SEPARATOR {
        cwd + input
    } else {
        cwd + seq![SEPARATOR] + input
    }
}

/// What is left of the first `n` names after `.` was dropped and each `..`
/// took back the name before it. A `..` with no name before it is dropped.
pub open spec fn settle(names: Seq<Seq<u8>>, n: int) -> Seq<Seq<u8>>
    decreases n,
{
    if n <= 0 {
        Seq::empty()
    } else if names[n - 1] == dot() {
        settle(names, n - 1)
    } else if names[n - 1] == dotdot() {
        if settle(names, n - 1).len() > 0 {
            settle(names, n - 1).drop_last()
        } else {
            settle(names, n - 1)
        }
    } else {
        settle(names, n - 1).push(names[n - 1])
    }
}

/// The names, each with a separator before it.
pub open spec fn chain(names: Seq<Seq<u8>>) -> Seq<u8>
    decreases names.len(),
{
    if names.len() == 0 {
        Seq::empty()
    } else {
        chain(names.drop_last()) + seq![SEPARATOR] + names.last()
    }
}

/// The absolute path with the given components.
pub open spec fn path_of(names: Seq<Seq<u8>>) -> Seq<u8> {
    if names.len() == 0 {
        root_path()
    } else {
        chain(names)
    }
}

/// The absolute path, in its shortest form, that `input` stands for when
/// it is read in the directory `cwd`.
pub open spec fn absolute(cwd: Seq<u8>, input: Seq<u8>) -> Seq<u8> {
    let names = components(joined(cwd, input));
    path_of(settle(names, names.len() as int))
}

/// A name is not empty and holds no separator.
pub open spec fn clean_name(name: Seq<u8>) -> bool {
    &&& name.len() > 0
    &&& forall|j: int| 0 <= j < name.len() ==> name[j] != SEPARATOR
}

/// The components of a path are not empty and hold no separator.
pub proof fn lemma_components_clean(path: Seq<u8>)
    ensures
        forall|k: int| 0 <= k < components(path).len() ==> clean_name(#[trigger] components(path)[k]),
{
    lemma_scan_clean(path, path.len() as int);
    let (done, cur) = scan(path, path.len() as int);
    assert forall|k: int| 0 <= k < components(path).len() implies clean_name(
        #[trigger] components(path)[k],
    ) by {
    }
}

proof fn lemma_scan_clean(path: Seq<u8>, n: int)
    requires
        0 <= n <= path.len(),
    ensures
        forall|k: int| 0 <= k < scan(path, n).0.len() ==> clean_name(#[trigger] scan(path, n).0[k]),
        forall|j: int| 0 <= j < scan(path, n).1.len() ==> scan(path, n).1[j] != SEPARATOR,
    decreases n,
{
    if n > 0 {
        lemma_scan_clean(path, n - 1);
        let (done, cur) = scan(path, n - 1);
        let (done2, cur2) = scan(path, n);
        if path[n - 1] == SEPARATOR {
            assert forall|k: int| 0 <= k < done2.len() implies clean_name(#[trigger] done2[k]) by {
            }
        } else {
            assert forall|j: int| 0 <= j < cur2.len() implies cur2[j] != SEPARATOR by {
            }
        }
    }
}

/// A path that is made of clean names has these names as its components.
pub proof fn lemma_components_of_path(names: Seq<Seq<u8>>)
    requires
        forall|k: int| 0 <= k < names.len() ==> clean_name(#[trigger] names[k]),
    ensures
        components(path_of(names)) == names,
        components(chain(names)) == names,
    decreases names.len(),
{
    lemma_root_components();
    if names.len() > 0 {
        let before = names.drop_last();
        let last = names.last();
        let head = chain(before);
        let path = chain(names);
        assert forall|k: int| 0 <= k < before.len() implies clean_name(#[trigger] before[k]) by {
        }
        lemma_components_of_path(before);
        let k = head.len() as int;
        lemma_scan_prefix(path, head, k);
        assert forall|j: int| k + 1 <= j < path.len() implies path[j] != SEPARATOR by {
        }
        lemma_scan_run(path, k + 1, path.len() as int);
        assert(path.subrange(k + 1, path.len() as int) =~= last);
    }
}

/// Settling clean names leaves plain names.
pub proof fn lemma_settle_plain(names: Seq<Seq<u8>>, n: int)
    requires
        0 <= n <= names.len(),
        forall|k: int| 0 <= k < names.len() ==> clean_name(#[trigger] names[k]),
    ensures
        plain_names(settle(names, n)),
    decreases n,
{
    if n > 0 {
        lemma_settle_plain(names, n - 1);
    }
}

/// The shortest form of a path is a path of plain names: its components
/// are the names that settling leaves.
pub proof fn law_absolute_is_plain(cwd: Seq<u8>, input: Seq<u8>)
    ensures
        plain_path(absolute(cwd, input)),
        components(absolute(cwd, input)) == settle(
            components(joined(cwd, input)),
            components(joined(cwd, input)).len() as int,
        ),
{
    let names = components(joined(cwd, input));
    lemma_components_clean(joined(cwd, input));
    lemma_settle_plain(names, names.len() as int);
    let left = settle(names, names.len() as int);
    assert forall|k: int| 0 <= k < left.len() implies clean_name(#[trigger] left[k]) by {
    }
    lemma_components_of_path(left);
}

/// Appends `piece` to `out`.
fn append(out: &mut Vec<u8>, piece: &[u8])
    ensures
        final(out)@ == old(out)@ + piece@,
{
    let mut i: usize = 0;
    while i < piece.len()
        invariant
            i <= piece@.len(),
            out@ == old(out)@ + piece@.take(i as int),
        decreases piece@.len() - i,
    {
        out.push(piece[i]);
        i += 1;
    }
}

/// Checks whether a name is `.`.
fn is_dot(name: &[u8]) -> (yes: bool)
    ensures
        yes == (name@ == dot()),
{
    let yes = name.len() == 1 && name[0] == 0x2e;
    proof {
        if yes {
            assert(name@ =~= dot());
        } else if name@.len() == 1 {
        }
    }
    yes
}

/// Checks whether a name is `..`.
fn is_dotdot(name: &[u8]) -> (yes: bool)
    ensures
        yes == (name@ == dotdot()),
{
    let yes = name.len() == 2 && name[0] == 0x2e && name[1] == 0x2e;
    proof {
        if yes {
            assert(name@ =~= dotdot());
        } else if name@.len() == 2 {
        }
    }
    yes
}

/// The names that the indices pick.
pub open spec fn picked(names: Seq<Seq<u8>>, kept: Seq<usize>) -> Seq<Seq<u8>> {
    Seq::new(kept.len(), |k: int| names[kept[k] as int])
}

/// Puts the path that `input` stands for in the directory `cwd` into its
/// shortest absolute form, as bytes.
pub fn absolute_path(cwd: &[u8], input: &[u8]) -> (path: Vec<u8>)
    ensures
        path@ == absolute(cwd@, input@),
{
    let mut whole: Vec<u8> = Vec::new();
    if !(input.len() > 0 && input[0] == SEPARATOR) {
        append(&mut whole, cwd);
        if !(cwd.len() > 0 && cwd[cwd.len() - 1] == SEPARATOR) {
            whole.push(SEPARATOR);
        }
    }
    append(&mut whole, input);
    proof {
        assert(whole@ =~= joined(cwd@, input@));
    }
    let parts = path_components(whole.as_slice());
    let ghost names = names_view(parts@);
    let mut kept: Vec<usize> = Vec::new();
    let mut i: usize = 0;
    while i < parts.len()
        invariant
            i <= parts@.len(),
            names == names_view(parts@),
            forall|k: int| 0 <= k < kept@.len() ==> kept@[k] < parts@.len(),
            picked(names, kept@) == settle(names, i as int),
        decreases parts@.len() - i,
    {
        let ghost before = kept@;
        let part = parts[i].as_slice();
        if !is_dot(part) {
            if is_dotdot(part) {
                if kept.len() > 0 {
                    kept.pop();
                    proof {
                        assert(picked(names, kept@) =~= picked(names, before).drop_last());
                    }
                }
            } else {
                kept.push(i);
                proof {
                    assert(picked(names, kept@) =~= picked(names, before).push(names[i as int]));
                }
            }
        }
        i += 1;
    }
    let ghost left = picked(names, kept@);
    let mut path: Vec<u8> = Vec::new();
    if kept.len() == 0 {
        path.push(SEPARATOR);
    } else {
        let mut k: usize = 0;
        while k < kept.len()
            invariant
                k <= kept@.len(),
                names == names_view(parts@),
                left == picked(names, kept@),
                forall|j: int| 0 <= j < kept@.len() ==> kept@[j] < parts@.len(),
                path@ == chain(left.take(k as int)),
            decreases kept@.len() - k,
        {
            path.push(SEPARATOR);
            append(&mut path, parts[kept[k]].as_slice());
            proof {
                let upto = left.take(k + 1);
                assert(upto.drop_last() =~= left.take(k as int));
            }
            k += 1;
        }
        proof {
            assert(left.take(left.len() as int) =~= left);
        }
    }
    path
}

/// Puts the path that `input` stands for in the directory `cwd` into its
/// shortest absolute form.
pub fn to_absolute_path(cwd: &str, input: &str) -> (path: String)
    ensures
        path@ == text_of(absolute(cwd.spec_bytes(), input.spec_bytes())),
{
    let bytes = absolute_path(cwd.as_bytes(), input.as_bytes());
    decode_text(bytes.as_slice())
}

} // verus!
