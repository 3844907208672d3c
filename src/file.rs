use vstd::prelude::*;

verus! {

/// A source file, and whether it changed since the output was last written.
pub struct File {
    pub path: String,
    pub modified: bool,
}

/// Marks each found file, given with its modification time, as modified when
/// that time is later than `last_updated`, the time the output was written.
/// The first result says whether any file was modified, so whether the output
/// must be generated again. Times are in any one unit, such as nanoseconds
/// since the epoch.
pub fn mark_modified(last_updated: u128, found: Vec<(String, u128)>) -> (r: (bool, Vec<File>))
    ensures
        r.1@.len() == found@.len(),
        forall|k: int|
            0 <= k < found@.len() ==> (#[trigger] r.1@[k]).path == found@[k].0 && r.1@[k].modified
                == (found@[k].1 > last_updated),
        r.0 == exists|k: int| 0 <= k < found@.len() && #[trigger] found@[k].1 > last_updated,
{
    let mut files: Vec<File> = Vec::new();
    let mut any = false;
    let ghost all = found@;
    let mut k: usize = 0;
    while k < found.len()
        invariant
            k <= all.len() == found@.len(),
            found@ == all,
            files@.len() == k,
            forall|j: int|
                0 <= j < k ==> (#[trigger] files@[j]).path == all[j].0 && files@[j].modified == (
                all[j].1 > last_updated),
            any == exists|j: int| 0 <= j < k && #[trigger] all[j].1 > last_updated,
        decreases all.len() - k,
    {
        let modified = found[k].1 > last_updated;
        let path = found[k].0.clone();
        files.push(File { path, modified });
        any = any || modified;
        proof {
            if modified {
                assert(all[k as int].1 > last_updated);
            }
        }
        k += 1;
    }
    (any, files)
}

} // verus!
