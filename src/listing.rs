//! Listing files: selecting directory entries, grouping them by file and
//! checking and joining a file's extents.
use vstd::prelude::*;

use crate::dir_entry::{CpmDirEntry, DirEntryView, trim_zeros};
use crate::error::Error;
use crate::file_id::{DELETED_USER, FileId, FileIdView, filename_bytes};
use crate::text::lossy_text;

verus! {

#[derive(Debug, Clone, Copy, PartialEq, Eq, Structural)]
pub enum LsMode {
    /// Files of all users, without deleted files.
    All,
    /// Files of one user.
    OwnedBy(u8),
    /// Files of all users and the entries that look like deleted files.
    Deleted,
}

/// A file as the directory lists it.
#[derive(Debug, Clone)]
pub struct FileItem {
    /// User owning the file, or `None` for a deleted file.
    pub user: Option<u8>,
    /// "NAME.EXT"
    pub name: String,
    /// Size in bytes: 128 for each record of each extent.
    pub size: usize,
    /// The blocks of the file, in order.
    pub block_list: Vec<u16>,
}

/// The mathematical content of a `FileItem`.
pub struct FileItemView {
    pub user: Option<u8>,
    pub name: Seq<char>,
    pub size: int,
    pub block_list: Seq<u16>,
}

impl View for FileItem {
    type V = FileItemView;

    open spec fn view(&self) -> FileItemView {
        FileItemView {
            user: self.user,
            name: self.name@,
            size: self.size as int,
            block_list: self.block_list@,
        }
    }
}

/// The entries that a listing in `mode` takes into account; `[lo, hi)` are
/// the blocks a file may own.
pub open spec fn selected(e: DirEntryView, mode: LsMode, lo: u16, hi: u16) -> bool {
    match mode {
        LsMode::All => e.used(),
        LsMode::OwnedBy(user) => e.used() && e.file_id.user == user,
        LsMode::Deleted => e.used() || e.likely_deleted(lo, hi),
    }
}

/// Entry `i` is the first selected entry of its file.
pub open spec fn is_first_of_file(es: Seq<DirEntryView>, mode: LsMode, lo: u16, hi: u16, i: int) -> bool {
    &&& selected(es[i], mode, lo, hi)
    &&& forall|j: int|
        0 <= j < i ==> !(selected(#[trigger] es[j], mode, lo, hi) && es[j].file_id == es[i].file_id)
}

/// The selected entries of file `id` among the first `n`, in directory order.
pub open spec fn group_upto(es: Seq<DirEntryView>, mode: LsMode, lo: u16, hi: u16, id: FileIdView, n: nat) -> Seq<DirEntryView>
    decreases n,
{
    if n == 0 {
        Seq::empty()
    } else {
        let prev = group_upto(es, mode, lo, hi, id, (n - 1) as nat);
        if selected(es[n - 1], mode, lo, hi) && es[n - 1].file_id == id {
            prev.push(es[n - 1])
        } else {
            prev
        }
    }
}

/// How many entries of `g` have extent number `x`.
pub open spec fn extent_count(g: Seq<DirEntryView>, x: int) -> nat
    decreases g.len(),
{
    if g.len() == 0 {
        0
    } else {
        extent_count(g.drop_last(), x) + if g.last().extent == x {
            1nat
        } else {
            0nat
        }
    }
}

/// The first extent number below `g.len()`, from `x` on, that `g` does not
/// hold exactly once.
pub open spec fn bad_extent_from(g: Seq<DirEntryView>, x: nat) -> Option<nat>
    decreases g.len() - x,
{
    if x >= g.len() {
        None
    } else if extent_count(g, x as int) != 1 {
        Some(x)
    } else {
        bad_extent_from(g, x + 1)
    }
}

/// Index in `g` of the first entry with extent `x` among the first `n`, or -1.
pub open spec fn find_extent(g: Seq<DirEntryView>, x: int, n: nat) -> int
    decreases n,
{
    if n == 0 {
        -1
    } else {
        let r = find_extent(g, x, (n - 1) as nat);
        if r >= 0 {
            r
        } else if g[n - 1].extent == x {
            n - 1
        } else {
            -1
        }
    }
}

/// The entry of `g` with extent number `x`.
pub open spec fn extent_entry(g: Seq<DirEntryView>, x: int) -> DirEntryView {
    g[find_extent(g, x, g.len())]
}

/// The first non-final extent, from `x` on, with fewer than `rpe` records.
pub open spec fn short_extent_from(g: Seq<DirEntryView>, rpe: int, x: nat) -> Option<nat>
    decreases g.len() - x,
{
    if x + 1 >= g.len() {
        None
    } else if extent_entry(g, x as int).record_count < rpe {
        Some(x)
    } else {
        short_extent_from(g, rpe, x + 1)
    }
}

/// The blocks of extents 0 to `k - 1`, in extent order.
pub open spec fn extent_blocks(g: Seq<DirEntryView>, k: nat) -> Seq<u16>
    decreases k,
{
    if k == 0 {
        Seq::empty()
    } else {
        extent_blocks(g, (k - 1) as nat) + trim_zeros(extent_entry(g, k - 1).blocks)
    }
}

/// Bytes covered by the first `n` entries of `g`.
pub open spec fn records_size(g: Seq<DirEntryView>, n: nat) -> int
    decreases n,
{
    if n == 0 {
        0
    } else {
        records_size(g, (n - 1) as nat) + g[n - 1].record_count * 128
    }
}

/// The block list of a file from its extents: extent numbers must be
/// exactly 0..n-1 and every extent but the last must be full.
pub open spec fn spec_blocks_from_extents(g: Seq<DirEntryView>, rpe: int) -> Result<Seq<u16>, Error> {
    match bad_extent_from(g, 0) {
        Some(x) => Err(Error::ExtentIndex { expected: x as usize }),
        None => match short_extent_from(g, rpe, 0) {
            Some(x) => Err(Error::ShortExtent { index: x as usize }),
            None => Ok(extent_blocks(g, g.len())),
        },
    }
}

/// The listing item of the file whose selected entries are `g`.
pub open spec fn file_of(g: Seq<DirEntryView>, rpe: int) -> Result<FileItemView, Error> {
    match spec_blocks_from_extents(g, rpe) {
        Err(e) => Err(e),
        Ok(block_list) => {
            let id = g[0].file_id;
            Ok(
                FileItemView {
                    user: if id.user != DELETED_USER {
                        Some(id.user)
                    } else {
                        None
                    },
                    name: lossy_text(filename_bytes(id)),
                    size: records_size(g, g.len()),
                    block_list,
                },
            )
        },
    }
}

/// The files among the first `n` entries, each taken at its first entry.
pub open spec fn list_upto(es: Seq<DirEntryView>, mode: LsMode, lo: u16, hi: u16, rpe: int, n: nat) -> Result<Seq<FileItemView>, Error>
    decreases n,
{
    if n == 0 {
        Ok(Seq::empty())
    } else {
        match list_upto(es, mode, lo, hi, rpe, (n - 1) as nat) {
            Err(e) => Err(e),
            Ok(files) => if is_first_of_file(es, mode, lo, hi, n - 1) {
                match file_of(group_upto(es, mode, lo, hi, es[n - 1].file_id, es.len()), rpe) {
                    Err(e) => Err(e),
                    Ok(f) => Ok(files.push(f)),
                }
            } else {
                Ok(files)
            },
        }
    }
}

pub open spec fn items_view(v: Seq<FileItem>) -> Seq<FileItemView> {
    v.map_values(|f: FileItem| f@)
}

pub(crate) fn same_file(a: &FileId, b: &FileId) -> (r: bool)
    ensures
        r == (a@ == b@),
{
    if a.user != b.user {
        return false;
    }
    let mut i: usize = 0;
    while i < 8
        invariant
            i <= 8,
            forall|j: int| 0 <= j < i ==> a.name@[j] == b.name@[j],
        decreases 8 - i,
    {
        if a.name[i] != b.name[i] {
            return false;
        }
        i = i + 1;
    }
    let mut i: usize = 0;
    while i < 3
        invariant
            i <= 3,
            forall|j: int| 0 <= j < i ==> a.extension@[j] == b.extension@[j],
        decreases 3 - i,
    {
        if a.extension[i] != b.extension[i] {
            return false;
        }
        i = i + 1;
    }
    assert(a.name@ =~= b.name@);
    assert(a.extension@ =~= b.extension@);
    true
}

pub(crate) fn entry_selected(e: &CpmDirEntry, mode: LsMode, range: &std::ops::Range<u16>) -> (r: bool)
    ensures
        r == selected(e@, mode, range.start, range.end),
{
    match mode {
        LsMode::All => e.used(),
        LsMode::OwnedBy(user) => e.owner() == Some(user),
        LsMode::Deleted => e.used() || e.likely_deleted(range),
    }
}

pub(crate) proof fn lemma_list_err(es: Seq<DirEntryView>, mode: LsMode, lo: u16, hi: u16, rpe: int, n: nat, m: nat)
    requires
        n <= m,
        list_upto(es, mode, lo, hi, rpe, n) is Err,
    ensures
        list_upto(es, mode, lo, hi, rpe, m) == list_upto(es, mode, lo, hi, rpe, n),
    decreases m,
{
    if n < m {
        lemma_list_err(es, mode, lo, hi, rpe, n, (m - 1) as nat);
    }
}

pub(crate) proof fn lemma_group_nonempty(es: Seq<DirEntryView>, mode: LsMode, lo: u16, hi: u16, i: int)
    requires
        0 <= i < es.len(),
        selected(es[i], mode, lo, hi),
    ensures
        group_upto(es, mode, lo, hi, es[i].file_id, es.len()).len() > 0,
{
    lemma_group_grows(es, mode, lo, hi, es[i].file_id, (i + 1) as nat, es.len());
}

pub(crate) proof fn lemma_group_grows(es: Seq<DirEntryView>, mode: LsMode, lo: u16, hi: u16, id: FileIdView, n: nat, m: nat)
    requires
        0 < n <= m <= es.len(),
        selected(es[n - 1], mode, lo, hi) && es[n - 1].file_id == id,
    ensures
        group_upto(es, mode, lo, hi, id, m).len() > 0,
    decreases m,
{
    if n < m {
        lemma_group_grows(es, mode, lo, hi, id, n, (m - 1) as nat);
    }
}

pub(crate) proof fn lemma_find_extent_stable(g: Seq<DirEntryView>, x: int, n: nat, m: nat)
    requires
        n <= m,
        find_extent(g, x, n) >= 0,
    ensures
        find_extent(g, x, m) == find_extent(g, x, n),
    decreases m,
{
    if n < m {
        lemma_find_extent_stable(g, x, n, (m - 1) as nat);
    }
}

pub(crate) proof fn lemma_find_props(g: Seq<DirEntryView>, x: int, n: nat)
    requires
        n <= g.len(),
    ensures
        find_extent(g, x, n) >= -1,
        find_extent(g, x, n) >= 0 ==> find_extent(g, x, n) < n && g[find_extent(g, x, n)].extent == x,
    decreases n,
{
    if n > 0 {
        lemma_find_props(g, x, (n - 1) as nat);
    }
}

pub(crate) proof fn lemma_count_find(g: Seq<DirEntryView>, x: int, n: nat)
    requires
        n <= g.len(),
        extent_count(g.subrange(0, n as int), x) > 0,
    ensures
        find_extent(g, x, n) >= 0,
        find_extent(g, x, n) < n,
        g[find_extent(g, x, n)].extent == x,
    decreases n,
{
    if n > 0 {
        assert(g.subrange(0, n as int).drop_last() =~= g.subrange(0, n - 1));
        lemma_find_props(g, x, (n - 1) as nat);
        if extent_count(g.subrange(0, n - 1), x) > 0 {
            lemma_count_find(g, x, (n - 1) as nat);
        }
    }
}

pub(crate) proof fn lemma_bad_extent_none(g: Seq<DirEntryView>, x: nat, y: nat)
    requires
        x <= y < g.len(),
        bad_extent_from(g, x) is None,
    ensures
        extent_count(g, y as int) == 1,
    decreases y - x,
{
    if x < y {
        lemma_bad_extent_none(g, x + 1, y);
    }
}

pub(crate) proof fn lemma_extent_present(g: Seq<DirEntryView>, x: nat)
    requires
        x < g.len(),
        bad_extent_from(g, 0) is None,
    ensures
        find_extent(g, x as int, g.len()) >= 0,
        find_extent(g, x as int, g.len()) < g.len(),
{
    lemma_bad_extent_none(g, 0, x);
    assert(g.subrange(0, g.len() as int) =~= g);
    lemma_count_find(g, x as int, g.len());
}

pub(crate) proof fn lemma_first_entry_of_file(es: Seq<DirEntryView>, mode: LsMode, lo: u16, hi: u16, i: int)
    requires
        0 <= i < es.len(),
        selected(es[i], mode, lo, hi),
    ensures
        exists|f: int| 0 <= f <= i && is_first_of_file(es, mode, lo, hi, f) && es[f].file_id == es[i].file_id,
    decreases i,
{
    if !is_first_of_file(es, mode, lo, hi, i) {
        let j = choose|j: int| 0 <= j < i && selected(#[trigger] es[j], mode, lo, hi) && es[j].file_id == es[i].file_id;
        lemma_first_entry_of_file(es, mode, lo, hi, j);
    }
}

pub(crate) proof fn lemma_two_with_extent(g: Seq<DirEntryView>, x: int, a: int, b: int, n: nat)
    requires
        n <= g.len(),
        0 <= a < b < n,
        g[a].extent == x,
        g[b].extent == x,
    ensures
        extent_count(g.subrange(0, n as int), x) >= 2,
    decreases n,
{
    let s = g.subrange(0, n as int);
    assert(s.drop_last() =~= g.subrange(0, n - 1));
    if b < n - 1 {
        lemma_two_with_extent(g, x, a, b, (n - 1) as nat);
    } else {
        lemma_one_with_extent(g, x, a, (n - 1) as nat);
    }
}

pub(crate) proof fn lemma_one_with_extent(g: Seq<DirEntryView>, x: int, a: int, n: nat)
    requires
        n <= g.len(),
        0 <= a < n,
        g[a].extent == x,
    ensures
        extent_count(g.subrange(0, n as int), x) >= 1,
    decreases n,
{
    let s = g.subrange(0, n as int);
    assert(s.drop_last() =~= g.subrange(0, n - 1));
    if a < n - 1 {
        lemma_one_with_extent(g, x, a, (n - 1) as nat);
    }
}

pub(crate) proof fn lemma_short_found(g: Seq<DirEntryView>, rpe: int, x: nat, y: nat)
    requires
        x <= y,
        y + 1 < g.len(),
        extent_entry(g, y as int).record_count < rpe,
    ensures
        short_extent_from(g, rpe, x) is Some,
    decreases y - x,
{
    if x < y && extent_entry(g, x as int).record_count >= rpe {
        lemma_short_found(g, rpe, x + 1, y);
    }
}

pub(crate) proof fn lemma_bad_found(g: Seq<DirEntryView>, x: nat, y: nat)
    requires
        x <= y < g.len(),
        extent_count(g, y as int) != 1,
    ensures
        bad_extent_from(g, x) is Some,
    decreases y - x,
{
    if x < y && extent_count(g, x as int) == 1 {
        lemma_bad_found(g, x + 1, y);
    }
}

/// A listing fails when the extents of some listed file are not numbered
/// exactly 0, 1, ..., n-1, or when one of its extents other than the last
/// holds fewer records than an extent can.
pub proof fn lemma_bad_extents_rejected(es: Seq<DirEntryView>, mode: LsMode, lo: u16, hi: u16, rpe: int, i: int)
    requires
        0 <= i < es.len(),
        selected(es[i], mode, lo, hi),
        ({
            let g = group_upto(es, mode, lo, hi, es[i].file_id, es.len());
            ||| exists|x: int| 0 <= x < g.len() && #[trigger] extent_count(g, x) != 1
            ||| exists|e: int|
                0 <= e < g.len() && (#[trigger] g[e]).extent < g.len() - 1 && g[e].record_count < rpe
        }),
    ensures
        list_upto(es, mode, lo, hi, rpe, es.len()) is Err,
{
    let g = group_upto(es, mode, lo, hi, es[i].file_id, es.len());
    assert(spec_blocks_from_extents(g, rpe) is Err) by {
        if exists|x: int| 0 <= x < g.len() && #[trigger] extent_count(g, x) != 1 {
            let x = choose|x: int| 0 <= x < g.len() && #[trigger] extent_count(g, x) != 1;
            lemma_bad_found(g, 0, x as nat);
        } else if bad_extent_from(g, 0) is None {
            let e = choose|e: int| 0 <= e < g.len() && (#[trigger] g[e]).extent < g.len() - 1 && g[e].record_count < rpe;
            let x = g[e].extent as int;
            lemma_extent_present(g, x as nat);
            lemma_find_props(g, x, g.len());
            let f = find_extent(g, x, g.len());
            lemma_bad_extent_none(g, 0, x as nat);
            assert(g.subrange(0, g.len() as int) =~= g);
            if f != e {
                if f < e {
                    lemma_two_with_extent(g, x, f, e, g.len());
                } else {
                    lemma_two_with_extent(g, x, e, f, g.len());
                }
            }
            lemma_short_found(g, rpe, 0, x as nat);
        }
    }
    lemma_first_entry_of_file(es, mode, lo, hi, i);
    let f = choose|f: int| 0 <= f <= i && is_first_of_file(es, mode, lo, hi, f) && es[f].file_id == es[i].file_id;
    assert(file_of(g, rpe) is Err);
    assert(list_upto(es, mode, lo, hi, rpe, (f + 1) as nat) is Err);
    lemma_list_err(es, mode, lo, hi, rpe, (f + 1) as nat, es.len());
}

} // verus!
