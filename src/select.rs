//! Choosing files of a listing by a glob pattern on their names.
use vstd::prelude::*;

use crate::listing::{FileItem, FileItemView, items_view};

verus! {

/// Whether `fast_glob::glob_match` matches `name` against `pattern`.
pub uninterp spec fn glob_matches(pattern: Seq<char>, name: Seq<char>) -> bool;

/// Relies on fast_glob::glob_match: whether `path` matches the glob
/// `pattern`; the answer depends on the two texts alone.
#[verifier::external_body]
fn glob_match(pattern: &str, path: &str) -> (r: bool)
    ensures
        r == glob_matches(pattern@, path@),
{
    fast_glob::glob_match(pattern, path)
}

/// The items of `files` whose flag in `keep` is set, in order.
pub open spec fn kept(files: Seq<FileItemView>, keep: Seq<bool>) -> Seq<FileItemView>
    decreases files.len(),
{
    if files.len() == 0 {
        Seq::empty()
    } else if keep[files.len() - 1] {
        kept(files.drop_last(), keep).push(files.last())
    } else {
        kept(files.drop_last(), keep)
    }
}

/// The flags of `files` whose names match `pattern`.
pub open spec fn match_flags(files: Seq<FileItemView>, pattern: Seq<char>) -> Seq<bool> {
    files.map_values(|f: FileItemView| glob_matches(pattern, f.name))
}

/// Keeps the files whose flag is set, in order.
pub fn filter_files(files: Vec<FileItem>, keep: &Vec<bool>) -> (r: Vec<FileItem>)
    requires
        files@.len() == keep@.len(),
    ensures
        items_view(r@) == kept(items_view(files@), keep@),
{
    let ghost all = items_view(files@);
    let n = files.len();
    let mut files = files;
    let mut out: Vec<FileItem> = Vec::new();
    let mut i: usize = 0;
    assert(items_view(out@) =~= kept(all.subrange(0, 0), keep@));
    while i < n
        invariant
            n == all.len(),
            n == keep@.len(),
            i <= n,
            items_view(files@) == all.subrange(i as int, n as int),
            files@.len() == n - i,
            items_view(out@) == kept(all.subrange(0, i as int), keep@),
        decreases n - i,
    {
        let ghost before = files@;
        assert(items_view(before).len() == before.len());
        let f = files.remove(0);
        assert(items_view(files@) =~= all.subrange(i + 1, n as int)) by {
            assert(files@ =~= before.subrange(1, before.len() as int));
            assert forall|k: int| 0 <= k < files@.len() implies #[trigger] items_view(files@)[k] == all[i + 1 + k] by {
                assert(files@[k] == before[k + 1]);
                assert(items_view(before)[k + 1] == before[k + 1]@);
                assert(items_view(before)[k + 1] == all.subrange(i as int, n as int)[k + 1]);
            }
        }
        assert(f@ == all[i as int]) by {
            assert(items_view(before)[0] == before[0]@);
        }
        assert(all.subrange(0, i + 1).drop_last() =~= all.subrange(0, i as int));
        if keep[i] {
            let ghost ov = out@;
            out.push(f);
            assert(items_view(out@) =~= items_view(ov).push(f@));
        }
        i = i + 1;
    }
    assert(all.subrange(0, n as int) =~= all);
    out
}

/// The files whose names match the glob `pattern`, in order.
pub fn select_files(files: Vec<FileItem>, pattern: &str) -> (r: Vec<FileItem>)
    ensures
        items_view(r@) == kept(items_view(files@), match_flags(items_view(files@), pattern@)),
{
    let mut keep: Vec<bool> = Vec::new();
    let mut i: usize = 0;
    while i < files.len()
        invariant
            i <= files@.len(),
            keep@ == match_flags(items_view(files@), pattern@).subrange(0, i as int),
        decreases files@.len() - i,
    {
        keep.push(glob_match(pattern, files[i].name.as_str()));
        assert(keep@ =~= match_flags(items_view(files@), pattern@).subrange(0, i + 1));
        i = i + 1;
    }
    assert(keep@ =~= match_flags(items_view(files@), pattern@));
    filter_files(files, &keep)
}

} // verus!
