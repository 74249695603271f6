//! Path resolution: a walk from the root through directory lookups, one
//! per component of the path. Nothing is remembered between calls.

use vstd::prelude::*;
use crate::device::{BlockDevice, Disk};
use crate::directory::{find_in_dir, lookup};
use crate::error::FsError;
use crate::layout::ROOT_INO;
use crate::path::{components, names_view, path_components};

verus! {

/// Where a walk from inode `from` along the names `names` ends.
pub open spec fn walk(d: Disk, from: u32, names: Seq<Seq<u8>>) -> Result<u32, FsError>
    decreases names.len(),
{
    if names.len() == 0 {
        Ok(from)
    } else {
        match lookup(d, from, names[0]) {
            Ok(next) => walk(d, next, names.drop_first()),
            Err(e) => Err(e),
        }
    }
}

/// The inode that a path names: where the walk from the root along the
/// path's components ends.
pub open spec fn resolve(d: Disk, path: Seq<u8>) -> Result<u32, FsError> {
    walk(d, ROOT_INO, components(path))
}

/// Resolves a path to the inode that it names.
pub fn resolve_path(dev: &BlockDevice, path: &[u8]) -> (found: Result<u32, FsError>)
    ensures
        found == resolve(dev@, path@),
{
    let parts = path_components(path);
    let ghost names = names_view(parts@);
    let mut current: u32 = ROOT_INO;
    let mut i: usize = 0;
    proof {
        assert(names.skip(0) =~= names);
    }
    while i < parts.len()
        invariant
            i <= parts@.len(),
            names == names_view(parts@),
            names == components(path@),
            walk(dev@, ROOT_INO, names) == walk(dev@, current, names.skip(i as int)),
        decreases parts@.len() - i,
    {
        proof {
            assert(names.skip(i as int).drop_first() =~= names.skip(i + 1));
        }
        match find_in_dir(dev, current, parts[i].as_slice()) {
            Ok(next) => {
                current = next;
            },
            Err(e) => {
                return Err(e);
            },
        }
        i += 1;
    }
    Ok(current)
}

} // verus!
