//! The CP/M filesystem: directory, block allocation, file reads and writes.
use vstd::prelude::*;

use crate::bytes::append_bytes;
use crate::dir_entry::{BLOCKS_PER_EXTENT, CpmDirEntry, DirEntryView, RECORD_SIZE};
use crate::directory::{
    calc_used_blocks, entries_view, owned_blocks, ownership_ok, read_directory, spec_directory,
};
use crate::dsk::image::{CHS, DskImage};
use crate::error::Error;
use crate::file_id::{DELETED_USER, FileId, FileIdView, filename_bytes};
pub use crate::geometry::Params;
use crate::geometry::{lemma_lsi_to_chs_injective, spec_lsi_to_chs};
pub use crate::listing::{FileItem, FileItemView, LsMode};
use crate::listing::{
    bad_extent_from, entry_selected, extent_blocks, extent_count, find_extent, group_upto,
    is_first_of_file, items_view, lemma_extent_present, lemma_find_extent_stable,
    lemma_group_nonempty, lemma_list_err, list_upto, records_size, same_file, selected,
    short_extent_from, spec_blocks_from_extents,
};
use crate::text::lossy_text;

verus! {

/// A CP/M filesystem held in memory together with its disk image.
pub struct CpmFs {
    params: Params,
    disk: DskImage,
    /// Number of allocation blocks.
    num_blocks: u16,
    /// All directory slots, used or not.
    dir_entries: Vec<CpmDirEntry>,
    /// One flag per block: owned by some file.
    used_blocks: Vec<bool>,
}

/// The bytes of logical sector `lsi` of a disk, if it has that sector.
pub open spec fn sector_at(disk: DskImage, p: Params, lsi: int) -> Option<Seq<u8>> {
    let (c, h, s) = spec_lsi_to_chs(
        p.sectors_per_track as int,
        p.reserved_tracks as int,
        disk.spec_num_sides() as int,
        lsi,
    );
    disk.spec_sector(c, h, s)
}

/// The bytes of `n` logical sectors from `lsi` on, if all of them exist
/// with the configured sector size.
pub open spec fn sectors_from(disk: DskImage, p: Params, lsi: int, n: nat) -> Option<Seq<u8>>
    decreases n,
{
    if n == 0 {
        Some(Seq::empty())
    } else {
        match sectors_from(disk, p, lsi, (n - 1) as nat) {
            None => None,
            Some(prefix) => {
                match sector_at(disk, p, lsi + n - 1) {
                    Some(d) => if d.len() == p.sector_size {
                        Some(prefix + d)
                    } else {
                        None
                    },
                    None => None,
                }
            },
        }
    }
}

/// The bytes of allocation block `b` of a disk.
pub open spec fn disk_block(disk: DskImage, p: Params, b: int) -> Option<Seq<u8>> {
    sectors_from(disk, p, b * p.sectors_per_block, p.sectors_per_block as nat)
}

pub(crate) proof fn lemma_sectors_from_none(disk: DskImage, p: Params, lsi: int, n: nat, m: nat)
    requires
        n <= m,
        sectors_from(disk, p, lsi, n) is None,
    ensures
        sectors_from(disk, p, lsi, m) is None,
    decreases m,
{
    if n < m {
        lemma_sectors_from_none(disk, p, lsi, n, (m - 1) as nat);
    }
}

pub(crate) proof fn lemma_sectors_from_len(disk: DskImage, p: Params, lsi: int, n: nat)
    requires
        sectors_from(disk, p, lsi, n) is Some,
    ensures
        sectors_from(disk, p, lsi, n)->0.len() == n * p.sector_size,
    decreases n,
{
    if n > 0 {
        let m = (n - 1) as nat;
        lemma_sectors_from_len(disk, p, lsi, m);
        let prefix = sectors_from(disk, p, lsi, m)->0;
        let d = sector_at(disk, p, lsi + n - 1)->0;
        assert(sectors_from(disk, p, lsi, n)->0 == prefix + d);
        assert(d.len() == p.sector_size);
        assert(prefix.len() == m * p.sector_size);
        assert(m * p.sector_size + p.sector_size == n * p.sector_size) by (nonlinear_arith)
            requires
                m + 1 == n,
        ;
    } else {
        assert(n * p.sector_size == 0) by (nonlinear_arith)
            requires
                n == 0,
        ;
    }
}

/// Sectors that no write touched read the same.
pub(crate) proof fn lemma_sectors_from_same(d1: DskImage, d2: DskImage, p: Params, lsi: int, n: nat)
    requires
        d1.spec_num_sides() == d2.spec_num_sides(),
        forall|i: int| 0 <= i < n ==> #[trigger] sector_at(d1, p, lsi + i) == sector_at(d2, p, lsi + i),
    ensures
        sectors_from(d1, p, lsi, n) == sectors_from(d2, p, lsi, n),
    decreases n,
{
    if n > 0 {
        lemma_sectors_from_same(d1, d2, p, lsi, (n - 1) as nat);
        assert(sector_at(d1, p, lsi + (n - 1)) == sector_at(d2, p, lsi + (n - 1)));
    }
}

pub(crate) proof fn lemma_sectors_from_split(disk: DskImage, p: Params, lsi: int, n: nat)
    requires
        sectors_from(disk, p, lsi, n) is Some,
    ensures
        forall|j: int|
            0 <= j < n ==> #[trigger] sector_at(disk, p, lsi + j) == Some(
                sectors_from(disk, p, lsi, n)->0.subrange(j * p.sector_size, (j + 1) * p.sector_size),
            ),
    decreases n,
{
    if n > 0 {
        let m = (n - 1) as nat;
        let ss = p.sector_size as int;
        lemma_sectors_from_split(disk, p, lsi, m);
        lemma_sectors_from_len(disk, p, lsi, m);
        let prefix = sectors_from(disk, p, lsi, m)->0;
        let d = sector_at(disk, p, lsi + n - 1)->0;
        let x = sectors_from(disk, p, lsi, n)->0;
        assert(x == prefix + d);
        assert forall|j: int| 0 <= j < n implies #[trigger] sector_at(disk, p, lsi + j) == Some(
            x.subrange(j * ss, (j + 1) * ss),
        ) by {
            if j < m {
                assert((j + 1) * ss <= m * ss) by (nonlinear_arith)
                    requires
                        j + 1 <= m,
                        ss >= 0,
                ;
                assert(0 <= j * ss) by (nonlinear_arith)
                    requires
                        0 <= j,
                        ss >= 0,
                ;
                assert((j + 1) * ss == j * ss + ss) by (nonlinear_arith);
                assert(x.subrange(j * ss, (j + 1) * ss) =~= prefix.subrange(j * ss, (j + 1) * ss));
            } else {
                assert(j * ss == m * ss);
                assert((j + 1) * ss == m * ss + ss) by (nonlinear_arith)
                    requires
                        j == m,
                ;
                assert(x.subrange(j * ss, (j + 1) * ss) =~= d);
            }
        }
    }
}

pub(crate) proof fn lemma_sectors_from_join(disk: DskImage, p: Params, lsi: int, n: nat, y: Seq<u8>)
    requires
        y.len() == n * p.sector_size,
        forall|j: int|
            0 <= j < n ==> #[trigger] sector_at(disk, p, lsi + j) == Some(
                y.subrange(j * p.sector_size, (j + 1) * p.sector_size),
            ),
    ensures
        sectors_from(disk, p, lsi, n) == Some(y),
    decreases n,
{
    let ss = p.sector_size as int;
    if n > 0 {
        let m = (n - 1) as nat;
        assert(m * ss + ss == n * ss) by (nonlinear_arith)
            requires
                m + 1 == n,
        ;
        assert(0 <= m * ss) by (nonlinear_arith)
            requires
                ss >= 0,
        ;
        let prefix = y.subrange(0, m * ss);
        assert forall|j: int| 0 <= j < m implies #[trigger] sector_at(disk, p, lsi + j) == Some(
            prefix.subrange(j * ss, (j + 1) * ss),
        ) by {
            assert((j + 1) * ss <= m * ss) by (nonlinear_arith)
                requires
                    j + 1 <= m,
                    ss >= 0,
            ;
            assert(0 <= j * ss) by (nonlinear_arith)
                requires
                    0 <= j,
                    ss >= 0,
            ;
            assert((j + 1) * ss == j * ss + ss) by (nonlinear_arith);
            assert(prefix.subrange(j * ss, (j + 1) * ss) =~= y.subrange(j * ss, (j + 1) * ss));
        }
        lemma_sectors_from_join(disk, p, lsi, m, prefix);
        assert(sector_at(disk, p, lsi + m) == Some(y.subrange(m * ss, (m + 1) * ss)));
        assert((m + 1) * ss == n * ss);
        assert(y =~= prefix + y.subrange(m * ss, n * ss));
    } else {
        assert(n * ss == 0) by (nonlinear_arith)
            requires
                n == 0,
        ;
        assert(y =~= Seq::<u8>::empty());
    }
}

/// Blocks whose sectors lie outside those of `block` read the same on two
/// disks that differ only in the sectors of `block`.
pub(crate) proof fn lemma_other_blocks_same(d1: DskImage, d2: DskImage, p: Params, block: int)
    requires
        d1.spec_num_sides() == d2.spec_num_sides(),
        block >= 0,
        forall|l: int|
            l >= 0 && !(block * p.sectors_per_block <= l < block * p.sectors_per_block
                + p.sectors_per_block) ==> #[trigger] sector_at(d1, p, l) == sector_at(d2, p, l),
    ensures
        forall|b: int| 0 <= b && b != block ==> #[trigger] disk_block(d1, p, b) == disk_block(d2, p, b),
{
    let spb = p.sectors_per_block as int;
    assert forall|b: int| 0 <= b && b != block implies #[trigger] disk_block(d1, p, b) == disk_block(
        d2,
        p,
        b,
    ) by {
        assert forall|j: int| 0 <= j < spb implies #[trigger] sector_at(d1, p, b * spb + j)
            == sector_at(d2, p, b * spb + j) by {
            assert(0 <= b * spb) by (nonlinear_arith)
                requires
                    0 <= b,
                    spb >= 0,
            ;
            if b < block {
                assert(b * spb + spb <= block * spb) by (nonlinear_arith)
                    requires
                        b + 1 <= block,
                        spb >= 0,
                ;
            } else {
                assert(block * spb + spb <= b * spb) by (nonlinear_arith)
                    requires
                        block + 1 <= b,
                        spb >= 0,
                ;
            }
        }
        lemma_sectors_from_same(d1, d2, p, b * spb, spb as nat);
    }
}

/// Reads allocation block `block` of a disk: its sectors in logical order.
pub(crate) fn read_disk_block(disk: &DskImage, params: &Params, block: u16) -> (r: Result<Vec<u8>, Error>)
    requires
        disk.wf(),
        params.sectors_per_track > 0,
        disk.spec_num_sides() > 0,
    ensures
        match disk_block(*disk, *params, block as int) {
            Some(d) => r matches Ok(v) && v@ == d,
            None => r == Err::<Vec<u8>, Error>(Error::UnreadableBlock { block }),
        },
{
    let spb = params.sectors_per_block as u32;
    assert(block * spb <= 65535 * 255) by (nonlinear_arith)
        requires
            block <= 65535,
            spb <= 255,
    ;
    let first_lsi: u32 = block as u32 * spb;
    let sides = disk.num_sides();
    let ghost p = *params;
    let mut buf: Vec<u8> = Vec::new();
    let mut i: u32 = 0;
    while i < spb
        invariant
            disk.wf(),
            params.sectors_per_track > 0,
            disk.spec_num_sides() > 0,
            spb == p.sectors_per_block,
            p == *params,
            sides == disk.spec_num_sides(),
            first_lsi == block * spb,
            first_lsi <= 65535 * 255,
            i <= spb,
            sectors_from(*disk, p, first_lsi as int, i as nat) == Some(buf@),
        decreases spb - i,
    {
        let chs = match CpmFs::lsi_to_chs(params, sides, first_lsi + i) {
            Some(c) => c,
            None => {
                proof {
                    let (c, h, s) = spec_lsi_to_chs(
                        p.sectors_per_track as int,
                        p.reserved_tracks as int,
                        sides as int,
                        first_lsi + i,
                    );
                    disk.lemma_sector_out_of_range(c, h, s);
                    lemma_sectors_from_none(
                        *disk,
                        p,
                        first_lsi as int,
                        (i + 1) as nat,
                        spb as nat,
                    );
                }
                return Err(Error::UnreadableBlock { block });
            },
        };
        let s = match disk.sector_as_slice(chs) {
            Ok(s) => s,
            Err(_) => {
                proof {
                    lemma_sectors_from_none(
                        *disk,
                        p,
                        first_lsi as int,
                        (i + 1) as nat,
                        spb as nat,
                    );
                }
                return Err(Error::UnreadableBlock { block });
            },
        };
        if s.len() != params.sector_size as usize {
            proof {
                lemma_sectors_from_none(
                    *disk,
                    p,
                    first_lsi as int,
                    (i + 1) as nat,
                    spb as nat,
                );
            }
            return Err(Error::UnreadableBlock { block });
        }
        append_bytes(&mut buf, s);
        i = i + 1;
    }
    Ok(buf)
}

/// The end-of-text marker of CP/M text files (^Z).
pub const CTRL_Z: u8 = 0x1A;

/// `i` is the position of the first ^Z of `s`.
pub open spec fn is_first_ctrl_z(s: Seq<u8>, i: int) -> bool {
    &&& 0 <= i < s.len()
    &&& s[i] == CTRL_Z
    &&& forall|j: int| 0 <= j < i ==> #[trigger] s[j] != CTRL_Z
}

/// Position of the first ^Z of `s`, or -1.
pub open spec fn first_ctrl_z(s: Seq<u8>) -> int {
    if exists|i: int| is_first_ctrl_z(s, i) {
        choose|i: int| is_first_ctrl_z(s, i)
    } else {
        -1
    }
}

pub(crate) proof fn lemma_first_ctrl_z(s: Seq<u8>, i: int)
    requires
        is_first_ctrl_z(s, i),
    ensures
        first_ctrl_z(s) == i,
{
    let c = choose|k: int| is_first_ctrl_z(s, k);
    if c < i {
        assert(s[c] != CTRL_Z);
    } else if i < c {
        assert(s[i] != CTRL_Z);
    }
}

pub(crate) proof fn lemma_some_ctrl_z(s: Seq<u8>, j: int)
    requires
        0 <= j < s.len(),
        s[j] == CTRL_Z,
    ensures
        first_ctrl_z(s) >= 0,
    decreases j,
{
    if forall|m: int| 0 <= m < j ==> #[trigger] s[m] != CTRL_Z {
        assert(is_first_ctrl_z(s, j));
    } else {
        let m = choose|m: int| 0 <= m < j && #[trigger] s[m] == CTRL_Z;
        lemma_some_ctrl_z(s, m);
    }
}

pub(crate) proof fn lemma_no_ctrl_z(s: Seq<u8>)
    requires
        forall|j: int| 0 <= j < s.len() ==> #[trigger] s[j] != CTRL_Z,
    ensures
        first_ctrl_z(s) == -1,
{
}

/// What reading `blocks` gives when `size_left` bytes remain: each block
/// gives its first `min(size_left, block size)` bytes. In text mode the
/// output stops before the first ^Z. Blocks must hold exactly the size.
pub open spec fn read_blocks(disk: DskImage, p: Params, blocks: Seq<u16>, size_left: int, text: bool) -> Result<Seq<u8>, Error>
    decreases blocks.len(),
{
    if blocks.len() == 0 {
        if size_left == 0 {
            Ok(Seq::empty())
        } else {
            Err(Error::SizeMismatch)
        }
    } else {
        match disk_block(disk, p, blocks[0] as int) {
            None => Err(Error::UnreadableBlock { block: blocks[0] }),
            Some(d) => {
                let n = if size_left < p.spec_block_size() {
                    size_left
                } else {
                    p.spec_block_size()
                };
                let chunk = d.subrange(0, n);
                if text && first_ctrl_z(chunk) >= 0 {
                    Ok(chunk.subrange(0, first_ctrl_z(chunk)))
                } else {
                    match read_blocks(disk, p, blocks.drop_first(), size_left - n, text) {
                        Ok(rest) => Ok(chunk + rest),
                        Err(e) => Err(e),
                    }
                }
            },
        }
    }
}

pub open spec fn prepend(out: Seq<u8>, r: Result<Seq<u8>, Error>) -> Result<Seq<u8>, Error> {
    match r {
        Ok(x) => Ok(out + x),
        Err(e) => Err(e),
    }
}

/// Reading in text mode stops at the first ^Z of what a binary read gives,
/// and gives all of it when there is none.
#[verifier::rlimit(40)]
pub proof fn lemma_text_read_stops_at_ctrl_z(disk: DskImage, p: Params, blocks: Seq<u16>, size: int, data: Seq<u8>)
    requires
        read_blocks(disk, p, blocks, size, false) == Ok::<Seq<u8>, Error>(data),
    ensures
        first_ctrl_z(data) >= 0 ==> read_blocks(disk, p, blocks, size, true) == Ok::<Seq<u8>, Error>(
            data.subrange(0, first_ctrl_z(data)),
        ),
        first_ctrl_z(data) < 0 ==> read_blocks(disk, p, blocks, size, true) == Ok::<Seq<u8>, Error>(data),
    decreases blocks.len(),
{
    if blocks.len() > 0 {
        let d = disk_block(disk, p, blocks[0] as int)->0;
        let n = if size < p.spec_block_size() {
            size
        } else {
            p.spec_block_size()
        };
        let chunk = d.subrange(0, n);
        let rest = read_blocks(disk, p, blocks.drop_first(), size - n, false)->Ok_0;
        assert(data == chunk + rest);
        if first_ctrl_z(chunk) >= 0 {
            let z = first_ctrl_z(chunk);
            assert(is_first_ctrl_z(chunk, z));
            assert(is_first_ctrl_z(data, z));
            lemma_first_ctrl_z(data, z);
            assert(data.subrange(0, z) =~= chunk.subrange(0, z));
        } else {
            assert forall|j: int| 0 <= j < chunk.len() implies #[trigger] chunk[j] != CTRL_Z by {
                if chunk[j] == CTRL_Z {
                    lemma_some_ctrl_z(chunk, j);
                }
            }
            lemma_text_read_stops_at_ctrl_z(disk, p, blocks.drop_first(), size - n, rest);
            if first_ctrl_z(rest) >= 0 {
                let z = first_ctrl_z(rest);
                assert(is_first_ctrl_z(rest, z));
                assert(is_first_ctrl_z(data, chunk.len() + z));
                lemma_first_ctrl_z(data, chunk.len() + z);
                assert(data.subrange(0, chunk.len() + z) =~= chunk + rest.subrange(0, z));
            } else {
                assert forall|j: int| 0 <= j < rest.len() implies #[trigger] rest[j] != CTRL_Z by {
                    if rest[j] == CTRL_Z {
                        lemma_some_ctrl_z(rest, j);
                    }
                }
                assert forall|j: int| 0 <= j < data.len() implies #[trigger] data[j] != CTRL_Z by {
                    if j >= chunk.len() {
                        assert(data[j] == rest[j - chunk.len()]);
                    }
                }
                lemma_no_ctrl_z(data);
            }
        }
    }
}

/// Position of the first ^Z of `s`, if any.
pub(crate) fn find_ctrl_z(s: &[u8], n: usize) -> (r: Option<usize>)
    requires
        n <= s@.len(),
    ensures
        match r {
            Some(k) => first_ctrl_z(s@.subrange(0, n as int)) == k,
            None => first_ctrl_z(s@.subrange(0, n as int)) == -1,
        },
{
    let ghost c = s@.subrange(0, n as int);
    let mut k: usize = 0;
    while k < n
        invariant
            n <= s@.len(),
            c == s@.subrange(0, n as int),
            k <= n,
            forall|j: int| 0 <= j < k ==> #[trigger] c[j] != CTRL_Z,
        decreases n - k,
    {
        if s[k] == CTRL_Z {
            proof {
                assert(is_first_ctrl_z(c, k as int));
                lemma_first_ctrl_z(c, k as int);
            }
            return Some(k);
        }
        k = k + 1;
    }
    None
}

/// The free blocks below `n` from `lo` on, lowest first.
pub open spec fn free_blocks_upto(used: Seq<bool>, lo: int, n: nat) -> Seq<u16>
    decreases n,
{
    if n == 0 {
        Seq::empty()
    } else {
        let prev = free_blocks_upto(used, lo, (n - 1) as nat);
        if n - 1 >= lo && !used[n - 1] {
            prev.push((n - 1) as u16)
        } else {
            prev
        }
    }
}

/// The unused directory slots among the first `n`, lowest first.
pub open spec fn free_slots_upto(es: Seq<DirEntryView>, n: nat) -> Seq<usize>
    decreases n,
{
    if n == 0 {
        Seq::empty()
    } else {
        let prev = free_slots_upto(es, (n - 1) as nat);
        if !es[n - 1].used() {
            prev.push((n - 1) as usize)
        } else {
            prev
        }
    }
}

pub(crate) proof fn lemma_free_blocks_props(used: Seq<bool>, lo: int, n: nat)
    requires
        n <= used.len(),
        n <= 0x10000,
    ensures
        forall|i: int| 0 <= i < free_blocks_upto(used, lo, n).len() ==> {
            let b = #[trigger] free_blocks_upto(used, lo, n)[i];
            lo <= b < n && !used[b as int]
        },
        forall|i: int, j: int|
            0 <= i < j < free_blocks_upto(used, lo, n).len() ==> #[trigger] free_blocks_upto(used, lo, n)[i]
                < #[trigger] free_blocks_upto(used, lo, n)[j],
        free_blocks_upto(used, lo, n).len() <= n,
    decreases n,
{
    if n > 0 {
        lemma_free_blocks_props(used, lo, (n - 1) as nat);
    }
}

pub(crate) proof fn lemma_free_blocks_prefix(used: Seq<bool>, lo: int, n: nat, m: nat)
    requires
        n <= m,
    ensures
        free_blocks_upto(used, lo, n).len() <= free_blocks_upto(used, lo, m).len(),
        forall|i: int| 0 <= i < free_blocks_upto(used, lo, n).len() ==> #[trigger] free_blocks_upto(used, lo, m)[i] == free_blocks_upto(used, lo, n)[i],
    decreases m,
{
    if n < m {
        lemma_free_blocks_prefix(used, lo, n, (m - 1) as nat);
    }
}

pub(crate) proof fn lemma_free_slots_props(es: Seq<DirEntryView>, n: nat)
    requires
        n <= es.len(),
        n <= 32640,
    ensures
        forall|i: int| 0 <= i < free_slots_upto(es, n).len() ==> {
            let k = #[trigger] free_slots_upto(es, n)[i];
            k < n && !es[k as int].used()
        },
        forall|i: int, j: int|
            0 <= i < j < free_slots_upto(es, n).len() ==> #[trigger] free_slots_upto(es, n)[i]
                < #[trigger] free_slots_upto(es, n)[j],
        free_slots_upto(es, n).len() <= n,
    decreases n,
{
    if n > 0 {
        lemma_free_slots_props(es, (n - 1) as nat);
    }
}

pub(crate) proof fn lemma_free_slots_prefix(es: Seq<DirEntryView>, n: nat, m: nat)
    requires
        n <= m,
    ensures
        free_slots_upto(es, n).len() <= free_slots_upto(es, m).len(),
        forall|i: int| 0 <= i < free_slots_upto(es, n).len() ==> #[trigger] free_slots_upto(es, m)[i] == free_slots_upto(es, n)[i],
    decreases m,
{
    if n < m {
        lemma_free_slots_prefix(es, n, (m - 1) as nat);
    }
}

/// Blocks a file of `len` bytes takes.
pub open spec fn blocks_needed(len: int, bs: int) -> int {
    len / bs + if len % bs != 0 {
        1int
    } else {
        0int
    }
}

/// Directory entries for `nb` blocks: one for each 8.
pub open spec fn extents_needed(nb: int) -> int {
    nb / 8 + if nb % 8 != 0 {
        1int
    } else {
        0int
    }
}

/// Bytes of the file in its `k`-th block.
pub open spec fn chunk_len(len: int, bs: int, k: int) -> int {
    if len - k * bs < bs {
        len - k * bs
    } else {
        bs
    }
}

/// What is written into the `k`-th block of a file: its bytes there, and in
/// text mode a ^Z after them if the block is not full.
pub open spec fn file_chunk(data: Seq<u8>, bs: int, k: int, text: bool) -> Seq<u8> {
    let c = data.subrange(k * bs, k * bs + chunk_len(data.len() as int, bs, k));
    if text && c.len() < bs {
        c.push(CTRL_Z)
    } else {
        c
    }
}

/// Records of the `e`-th extent of a file of `len` bytes: 128-byte records
/// of the (at most 8 blocks of) bytes it covers, the last one partial.
pub open spec fn extent_records(len: int, bs: int, e: int) -> int {
    let left = len - e * 8 * bs;
    let size = if left < 8 * bs {
        left
    } else {
        8 * bs
    };
    size / 128 + if size % 128 != 0 {
        1int
    } else {
        0int
    }
}

/// The blocks of the `e`-th extent among the blocks of a file.
pub open spec fn extent_group(bl: Seq<u16>, e: int) -> Seq<u16> {
    bl.subrange(
        8 * e,
        if 8 * e + 8 < bl.len() {
            8 * e + 8
        } else {
            bl.len() as int
        },
    )
}

/// The directory entry written for one extent of a new file.
pub open spec fn new_entry_view(id: FileIdView, e: int, records: int, blocks: Seq<u16>) -> DirEntryView {
    DirEntryView {
        file_id: id,
        extent: e as u16,
        record_count: records as u8,
        blocks: blocks + Seq::new((8 - blocks.len()) as nat, |i: int| 0u16),
        read_only: false,
        system_file: false,
        archived: false,
    }
}

pub(crate) proof fn lemma_alloc_arith(len: int, bs: int, k: int)
    requires
        len >= 0,
        bs > 0,
        0 <= k < blocks_needed(len, bs),
    ensures
        0 <= k * bs < len,
{
    let nb = blocks_needed(len, bs);
    vstd::arithmetic::div_mod::lemma_fundamental_div_mod(len, bs);
    vstd::arithmetic::div_mod::lemma_div_pos_is_pos(len, bs);
    assert(k * bs < len && k * bs >= 0) by (nonlinear_arith)
        requires
            len == bs * (len / bs) + len % bs,
            0 <= len % bs < bs,
            nb == len / bs + if len % bs != 0 { 1int } else { 0int },
            0 <= k < nb,
            bs > 0,
    ;
}

pub(crate) proof fn lemma_extent_arith(nb: int, e: int)
    requires
        nb >= 0,
        0 <= e < extents_needed(nb),
    ensures
        8 * e < nb,
{
    vstd::arithmetic::div_mod::lemma_fundamental_div_mod(nb, 8);
}

pub(crate) proof fn lemma_read_held(disk: DskImage, p: Params, bl: Seq<u16>, data: Seq<u8>, k: nat)
    requires
        p.spec_block_size() > 0,
        bl.len() == blocks_needed(data.len() as int, p.spec_block_size()),
        k <= bl.len(),
        forall|j: int|
            0 <= j < bl.len() ==> ((#[trigger] disk_block(disk, p, bl[j] as int)) matches Some(d) && d.len()
                == p.spec_block_size() && d.subrange(0, chunk_len(data.len() as int, p.spec_block_size(), j))
                == data.subrange(
                j * p.spec_block_size(),
                j * p.spec_block_size() + chunk_len(data.len() as int, p.spec_block_size(), j),
            )),
    ensures
        ({
            let bs = p.spec_block_size();
            let len = data.len() as int;
            let done = if k * bs < len {
                k * bs
            } else {
                len
            };
            read_blocks(disk, p, bl.subrange(k as int, bl.len() as int), len - done, false) == Ok::<Seq<u8>, Error>(
                data.subrange(done, len),
            )
        }),
    decreases bl.len() - k,
{
    let bs = p.spec_block_size();
    let len = data.len() as int;
    let rest = bl.subrange(k as int, bl.len() as int);
    if k == bl.len() {
        vstd::arithmetic::div_mod::lemma_fundamental_div_mod(len, bs);
        assert(bl.len() * bs >= len) by (nonlinear_arith)
            requires
                len == bs * (len / bs) + len % bs,
                0 <= len % bs < bs,
                bl.len() == len / bs + if len % bs != 0 { 1int } else { 0int },
        ;
        assert(data.subrange(len, len) =~= Seq::<u8>::empty());
    } else {
        lemma_alloc_arith(len, bs, k as int);
        lemma_read_held(disk, p, bl, data, k + 1);
        assert(rest[0] == bl[k as int]);
        assert(rest.drop_first() =~= bl.subrange(k + 1 as int, bl.len() as int));
        let n = chunk_len(len, bs, k as int);
        let d = disk_block(disk, p, bl[k as int] as int)->0;
        assert(d.subrange(0, n) == data.subrange(k * bs, k * bs + n));
        assert((k + 1) * bs == k * bs + bs) by (nonlinear_arith);
        let done2 = if (k + 1) * bs < len { (k + 1) * bs } else { len };
        assert(done2 == k * bs + n);
        assert(data.subrange(k * bs, len) =~= data.subrange(k * bs, k * bs + n) + data.subrange(done2, len));
    }
}

/// What opening the filesystem of `disk` with `params` gives: invalid
/// parameters are refused; otherwise the directory is decoded and block
/// ownership checked, and the filesystem holds the disk, the parameters, the
/// directory and the owned blocks.
pub open spec fn opened(disk: DskImage, params: Params, r: Result<CpmFs, Error>) -> bool {
    let cylinders = disk.spec_num_cylinders();
    let sides = disk.spec_num_sides();
    &&& !params.valid_for(cylinders, sides) ==> r == Err::<CpmFs, Error>(Error::InvalidParams)
    &&& params.valid_for(cylinders, sides) ==> match spec_directory(disk, params) {
        Err(e) => r == Err::<CpmFs, Error>(e),
        Ok(es) => if ownership_ok(es, params.spec_num_blocks(cylinders, sides)) {
            r is Ok
        } else {
            r matches Err(e) && (e is DuplicateBlock || e is BlockOutOfRange)
        },
    }
    &&& match r {
        Ok(fs) => {
            &&& fs.wf()
            &&& fs.spec_disk() == disk
            &&& fs.spec_params() == params
            &&& spec_directory(disk, params) == Ok::<Seq<DirEntryView>, Error>(fs.spec_entries())
            &&& fs.spec_num_blocks() == params.spec_num_blocks(cylinders, sides)
            &&& forall|b: int|
                0 <= b < fs.spec_num_blocks() ==> #[trigger] fs.spec_used()[b] == owned_blocks(
                    fs.spec_entries(),
                ).contains(b as u16)
        },
        Err(_) => true,
    }
}

impl CpmFs {
    /// The filesystem's structure is consistent with its parameters.
    pub closed spec fn wf(&self) -> bool {
        &&& self.disk.wf()
        &&& self.params.valid_for(self.disk.spec_num_cylinders(), self.disk.spec_num_sides())
        &&& self.num_blocks == self.params.spec_num_blocks(
            self.disk.spec_num_cylinders(),
            self.disk.spec_num_sides(),
        )
        &&& self.used_blocks@.len() == self.num_blocks
        &&& self.dir_entries@.len() <= 32640
    }

    pub closed spec fn spec_params(&self) -> Params {
        self.params
    }

    pub closed spec fn spec_disk(&self) -> DskImage {
        self.disk
    }

    pub closed spec fn spec_num_blocks(&self) -> int {
        self.num_blocks as int
    }

    /// The directory slots, in order.
    pub closed spec fn spec_entries(&self) -> Seq<DirEntryView> {
        self.dir_entries@.map_values(|e: CpmDirEntry| e@)
    }

    /// One flag per block: owned by some file.
    pub closed spec fn spec_used(&self) -> Seq<bool> {
        self.used_blocks@
    }

    /// The bytes of allocation block `b`, if all its sectors exist.
    pub closed spec fn block_data(&self, b: int) -> Option<Seq<u8>> {
        disk_block(self.disk, self.params, b)
    }

    /// Converts a logical sector index to a CHS sector address; `None` when
    /// the cylinder does not fit a byte (no disk has such a cylinder).
    fn lsi_to_chs(params: &Params, sides: u8, lsi: u32) -> (r: Option<CHS>)
        requires
            params.sectors_per_track > 0,
            sides > 0,
        ensures
            ({
                let (c, h, s) = spec_lsi_to_chs(
                    params.sectors_per_track as int,
                    params.reserved_tracks as int,
                    sides as int,
                    lsi as int,
                );
                match r {
                    Some(chs) => chs.cylinder == c && chs.head == h && chs.sector == s,
                    None => c > 255,
                }
            }),
    {
        let track: u64 = lsi as u64 / params.sectors_per_track as u64 + params.reserved_tracks as u64;
        // sector ids start from 1
        let sector = (lsi % params.sectors_per_track as u32) as u8 + 1;
        let cylinder = track / sides as u64;
        let head = (track % sides as u64) as u8;
        if cylinder > 255 {
            return None;
        }
        Some(CHS { cylinder: cylinder as u8, head, sector })
    }

    /// Bytes in one allocation block.
    pub fn block_size(&self) -> (r: usize)
        requires
            self.wf(),
        ensures
            r == self.spec_params().spec_block_size(),
            128 <= r <= 4080,
    {
        assert(self.params.sector_size * self.params.sectors_per_block >= 128) by (nonlinear_arith)
            requires
                self.params.sector_size >= 128,
                self.params.sectors_per_block >= 1,
        ;
        self.params.sector_size as usize * self.params.sectors_per_block as usize
    }

    /// Reads one allocation block: its sectors in logical order.
    pub fn read_block(&self, block: u16) -> (r: Result<Vec<u8>, Error>)
        requires
            self.wf(),
        ensures
            match self.block_data(block as int) {
                Some(d) => r matches Ok(v) && v@ == d,
                None => r == Err::<Vec<u8>, Error>(Error::UnreadableBlock { block }),
            },
    {
        read_disk_block(&self.disk, &self.params, block)
    }

    /// Writes `buf` over the start of block `block`, sector by sector; the
    /// rest of the block and all other blocks keep their bytes.
    ///
    /// Fails, and writes nothing, if the block is not readable as a whole.
    pub fn write_block(&mut self, block: u16, buf: &[u8]) -> (r: Result<(), Error>)
        requires
            old(self).wf(),
            buf@.len() <= old(self).spec_params().spec_block_size(),
        ensures
            final(self).wf(),
            final(self).spec_params() == old(self).spec_params(),
            final(self).spec_num_blocks() == old(self).spec_num_blocks(),
            final(self).spec_entries() == old(self).spec_entries(),
            final(self).spec_used() == old(self).spec_used(),
            r is Ok <==> old(self).block_data(block as int) is Some,
            r is Err ==> *final(self) == *old(self),
            old(self).block_data(block as int) is Some ==> final(self).block_data(
                block as int,
            ) == Some(
                buf@ + old(self).block_data(block as int)->0.subrange(
                    buf@.len() as int,
                    old(self).spec_params().spec_block_size(),
                ),
            ),
            r is Err ==> old(self).block_data(block as int) is None,
            r matches Err(e) ==> e == (Error::UnreadableBlock { block }),
            forall|b: int|
                0 <= b && b != block ==> #[trigger] final(self).block_data(b) == old(self).block_data(b),
    {
        let ghost p = self.params;
        let ghost old_disk = self.disk;
        let ghost sides_i = self.disk.spec_num_sides() as int;
        let ghost spt = p.sectors_per_track as int;
        let ghost rsv = p.reserved_tracks as int;
        let ss = self.params.sector_size as usize;
        let spb = self.params.sectors_per_block as u32;
        assert(block * spb <= 65535 * 255) by (nonlinear_arith)
            requires
                block <= 65535,
                spb <= 255,
        ;
        let first_lsi: u32 = block as u32 * spb;
        let sides = self.disk.num_sides();
        let len = buf.len();
        match read_disk_block(&self.disk, &self.params, block) {
            Ok(_) => {},
            Err(e) => return Err(e),
        }
        let ghost old_block = disk_block(old_disk, p, block as int)->0;
        let ghost y = buf@ + old_block.subrange(len as int, p.spec_block_size());
        proof {
            lemma_sectors_from_split(old_disk, p, first_lsi as int, spb as nat);
            lemma_sectors_from_len(old_disk, p, first_lsi as int, spb as nat);
        }
        let mut i: u32 = 0;
        let mut start: usize = 0;
        while start < len
            invariant
                self.wf(),
                self.params == p,
                p == old(self).params,
                old_disk == old(self).disk,
                disk_block(old_disk, p, block as int) is Some,
                self.num_blocks == old(self).num_blocks,
                self.dir_entries == old(self).dir_entries,
                self.used_blocks == old(self).used_blocks,
                self.disk.spec_num_sides() == old_disk.spec_num_sides(),
                self.disk.spec_num_cylinders() == old_disk.spec_num_cylinders(),
                sides == sides_i,
                sides_i == old_disk.spec_num_sides(),
                sides_i > 0,
                spt > 0,
                spt == p.sectors_per_track,
                rsv == p.reserved_tracks,
                old_block == disk_block(old_disk, p, block as int)->0,
                y == buf@ + old_block.subrange(len as int, p.spec_block_size()),
                ss == p.sector_size,
                ss > 0,
                spb == p.sectors_per_block,
                len == buf@.len(),
                len <= ss * spb,
                first_lsi == block * spb,
                first_lsi <= 65535 * 255,
                i * ss <= len ==> start == i * ss,
                i * ss > len ==> start == len,
                i <= spb,
                forall|l: int|
                    l >= 0 && !(first_lsi <= l < first_lsi + i) ==> #[trigger] sector_at(
                        self.disk,
                        p,
                        l,
                    ) == sector_at(old_disk, p, l),
                disk_block(old_disk, p, block as int) is Some ==> forall|j: int|
                    0 <= j < i ==> #[trigger] sector_at(self.disk, p, first_lsi + j) == Some(
                        y.subrange(j * ss, (j + 1) * ss),
                    ),
                disk_block(old_disk, p, block as int) is Some ==> old_block.len() == ss * spb,
                disk_block(old_disk, p, block as int) is Some ==> forall|j: int|
                    0 <= j < spb ==> #[trigger] sector_at(old_disk, p, first_lsi + j) == Some(
                        old_block.subrange(j * ss, (j + 1) * ss),
                    ),
            decreases len - start,
        {
            assert(i < spb) by (nonlinear_arith)
                requires
                    start == i * ss,
                    start < len,
                    len <= ss * spb,
                    ss > 0,
            ;
            let end = if len - start < ss {
                len
            } else {
                start + ss
            };
            let chunk = &buf[start..end];
            let chs = match Self::lsi_to_chs(&self.params, sides, first_lsi + i) {
                Some(c) => c,
                None => {
                    proof {
                        let (c, h, s) = spec_lsi_to_chs(spt, rsv, sides_i, first_lsi + i);
                        assert(c > 255);
                        assert(old_disk.spec_num_cylinders() <= 255);
                        old_disk.lemma_sector_out_of_range(c, h, s);
                        if disk_block(old_disk, p, block as int) is Some {
                            assert(sector_at(old_disk, p, first_lsi + i) is Some);
                        }
                        lemma_other_blocks_same(self.disk, old_disk, p, block as int);
                    }
                    return Err(Error::UnreadableBlock { block });
                },
            };
            let ghost before = self.disk;
            match self.disk.write_sector(chs, chunk) {
                Ok(()) => {},
                Err(_) => {
                    proof {
                        assert(sector_at(before, p, first_lsi + i) == sector_at(
                            old_disk,
                            p,
                            first_lsi + i,
                        ));
                        if disk_block(old_disk, p, block as int) is Some {
                            assert(sector_at(old_disk, p, first_lsi + i) is Some);
                            let d = sector_at(old_disk, p, first_lsi + i)->0;
                            assert(d == old_block.subrange(i * ss, (i + 1) * ss));
                            assert((i + 1) * ss == i * ss + ss) by (nonlinear_arith);
                            assert(i * ss + ss <= ss * spb) by (nonlinear_arith)
                                requires
                                    i + 1 <= spb,
                                    ss > 0,
                            ;
                            assert(d.len() == ss);
                            assert(chunk@.len() <= ss);
                            assert(false);
                        }
                        lemma_other_blocks_same(self.disk, old_disk, p, block as int);
                    }
                    return Err(Error::UnreadableBlock { block });
                },
            }
            proof {
                let target = first_lsi + i;
                assert forall|l: int|
                    l >= 0 && !(first_lsi <= l < first_lsi + i + 1) implies #[trigger] sector_at(
                    self.disk,
                    p,
                    l,
                ) == sector_at(old_disk, p, l) by {
                    let (c, h, s) = spec_lsi_to_chs(spt, rsv, sides_i, l);
                    if c == chs.cylinder && h == chs.head && s == chs.sector {
                        lemma_lsi_to_chs_injective(spt, rsv, sides_i, l, target);
                    }
                    assert(sector_at(before, p, l) == sector_at(old_disk, p, l));
                }
                if disk_block(old_disk, p, block as int) is Some {
                    assert forall|j: int| 0 <= j < i + 1 implies #[trigger] sector_at(
                        self.disk,
                        p,
                        first_lsi + j,
                    ) == Some(y.subrange(j * ss, (j + 1) * ss)) by {
                        if j < i {
                            let (c, h, s) = spec_lsi_to_chs(spt, rsv, sides_i, first_lsi + j);
                            if c == chs.cylinder && h == chs.head && s == chs.sector {
                                lemma_lsi_to_chs_injective(spt, rsv, sides_i, first_lsi + j, target);
                            }
                            assert(sector_at(before, p, first_lsi + j) == Some(
                                y.subrange(j * ss, (j + 1) * ss),
                            ));
                        } else {
                            assert(j == i);
                            let d = sector_at(old_disk, p, target)->0;
                            assert(sector_at(before, p, target) == sector_at(old_disk, p, target));
                            assert(d == old_block.subrange(j * ss, (j + 1) * ss));
                            assert((j + 1) * ss == j * ss + ss) by (nonlinear_arith);
                            assert(j * ss + ss <= ss * spb) by (nonlinear_arith)
                                requires
                                    j + 1 <= spb,
                                    ss > 0,
                            ;
                            let nd = chunk@ + d.subrange(chunk@.len() as int, d.len() as int);
                            assert(sector_at(self.disk, p, target) == Some(nd));
                            assert(nd =~= y.subrange(j * ss, (j + 1) * ss));
                        }
                    }
                }
            }
            assert((i + 1) * ss == i * ss + ss) by (nonlinear_arith);
            i = i + 1;
            start = end;
        }
        proof {
            lemma_other_blocks_same(self.disk, old_disk, p, block as int);
            assert(i * ss >= len);
            if disk_block(old_disk, p, block as int) is Some {
                assert(y.len() == spb * ss) by (nonlinear_arith)
                    requires
                        y.len() == len + (ss * spb - len),
                ;
                assert forall|j: int| 0 <= j < spb implies #[trigger] sector_at(
                    self.disk,
                    p,
                    first_lsi + j,
                ) == Some(y.subrange(j * ss, (j + 1) * ss)) by {
                    if j >= i {
                        assert(j * ss >= len) by (nonlinear_arith)
                            requires
                                j >= i,
                                i * ss >= len,
                                ss > 0,
                        ;
                        assert((j + 1) * ss == j * ss + ss) by (nonlinear_arith);
                        assert((j + 1) * ss <= spb * ss) by (nonlinear_arith)
                            requires
                                j + 1 <= spb,
                                ss > 0,
                        ;
                        assert(y.subrange(j * ss, (j + 1) * ss) =~= old_block.subrange(
                            j * ss,
                            (j + 1) * ss,
                        ));
                    }
                }
                lemma_sectors_from_join(self.disk, p, first_lsi as int, spb as nat, y);
            }
        }
        Ok(())
    }

    /// Opens the filesystem of a disk image: checks the parameters against the
    /// geometry, decodes the whole directory and marks the blocks that used
    /// entries own.
    pub fn new(disk: DskImage, params: Params) -> (r: Result<CpmFs, Error>)
        requires
            disk.wf(),
        ensures
            opened(disk, params, r),
    {
        let cylinders = disk.num_cylinders();
        let sides = disk.num_sides();
        if params.sectors_per_track == 0 || params.sectors_per_block == 0 || sides == 0
            || params.sector_size == 0 || params.sector_size % 128 != 0 {
            return Err(Error::InvalidParams);
        }
        assert(params.sector_size * params.sectors_per_block <= 65535 * 255) by (nonlinear_arith)
            requires
                params.sector_size <= 65535,
                params.sectors_per_block <= 255,
        ;
        let block_size: u32 = params.sector_size as u32 * params.sectors_per_block as u32;
        if block_size > 128 * 255 / 8 {
            return Err(Error::InvalidParams);
        }
        assert(cylinders * sides <= 255 * 255) by (nonlinear_arith)
            requires
                cylinders <= 255,
                sides <= 255,
        ;
        assert(cylinders * sides * params.sectors_per_track <= 255 * 255 * 255) by (nonlinear_arith)
            requires
                cylinders <= 255,
                sides <= 255,
                params.sectors_per_track <= 255,
        ;
        let total: u32 = cylinders as u32 * sides as u32 * params.sectors_per_track as u32;
        let num_blocks: u32 = total / params.sectors_per_block as u32;
        if num_blocks > 0xFFFF {
            return Err(Error::InvalidParams);
        }
        let dir_entries = match read_directory(&disk, &params) {
            Ok(v) => v,
            Err(e) => return Err(e),
        };
        let used_blocks = match calc_used_blocks(num_blocks as u16, &dir_entries) {
            Ok(u) => u,
            Err(e) => return Err(e),
        };
        let fs = CpmFs { params, disk, num_blocks: num_blocks as u16, dir_entries, used_blocks };
        Ok(fs)
    }

    /// Decodes a disk image and opens its filesystem (see `DskImage::load`
    /// and `CpmFs::new`).
    pub fn load(data: &[u8], params: Params) -> (r: Result<CpmFs, Error>)
        ensures
            r matches Ok(fs) ==> {
                &&& fs.wf()
                &&& fs.spec_disk().spec_bytes() == data@
                &&& fs.spec_params() == params
                &&& spec_directory(fs.spec_disk(), params) == Ok::<Seq<DirEntryView>, Error>(
                    fs.spec_entries(),
                )
                &&& forall|b: int|
                    0 <= b < fs.spec_num_blocks() ==> #[trigger] fs.spec_used()[b] == owned_blocks(
                        fs.spec_entries(),
                    ).contains(b as u16)
            },
            !(data@.len() >= 34 && data@.subrange(0, 34) == crate::dsk::structs::disk_magic()) ==> r
                == Err::<CpmFs, Error>(Error::BadMagic),
            !crate::dsk::image::image_ok(data@) ==> r is Err,
            crate::dsk::image::image_ok(data@) ==> exists|disk: DskImage|
                disk.wf() && disk.spec_bytes() == data@ && #[trigger] opened(disk, params, r),
    {
        let disk = match DskImage::load(data) {
            Ok(d) => d,
            Err(e) => return Err(e),
        };
        let ghost d = disk;
        let r = Self::new(disk, params);
        assert(opened(d, params, r));
        r
    }

    /// The disk image, with every block written so far.
    pub fn image(&self) -> (r: &DskImage)
        ensures
            *r == self.spec_disk(),
    {
        &self.disk
    }

    /// Bytes one directory entry can cover: 8 full blocks of records.
    pub closed spec fn spec_rpe(&self) -> int {
        self.params.records_per_extent()
    }

    /// Lists the files in `mode`: the selected entries are grouped by file,
    /// each group is checked (extent numbers 0..n-1, all extents but the last
    /// full) and gives the file's size and its blocks in extent order. Files
    /// come in the order of their first entry in the directory.
    pub fn list_files(&self, mode: LsMode) -> (r: Result<Vec<FileItem>, Error>)
        requires
            self.wf(),
        ensures
            ({
                let spec = list_upto(
                    self.spec_entries(),
                    mode,
                    self.spec_params().dir_blocks as u16,
                    self.spec_num_blocks() as u16,
                    self.spec_params().records_per_extent(),
                    self.spec_entries().len(),
                );
                match r {
                    Ok(v) => spec == Ok::<Seq<FileItemView>, Error>(items_view(v@)),
                    Err(e) => spec == Err::<Seq<FileItemView>, Error>(e),
                }
            }),
    {
        let range = (self.params.dir_blocks as u16)..self.num_blocks;
        let ghost es = self.spec_entries();
        let ghost lo = self.params.dir_blocks as u16;
        let ghost hi = self.num_blocks;
        let ghost rpe = self.params.records_per_extent();
        let n = self.dir_entries.len();
        let mut files: Vec<FileItem> = Vec::new();
        assert(items_view(files@) =~= Seq::<FileItemView>::empty());
        let mut i: usize = 0;
        while i < n
            invariant
                self.wf(),
                es == self.spec_entries(),
                n == self.dir_entries@.len(),
                n == es.len(),
                range.start == lo,
                range.end == hi,
                lo == self.params.dir_blocks as u16,
                hi == self.num_blocks,
                rpe == self.params.records_per_extent(),
                i <= n,
                list_upto(es, mode, lo, hi, rpe, i as nat) == Ok::<Seq<FileItemView>, Error>(items_view(files@)),
            decreases n - i,
        {
            let e = &self.dir_entries[i];
            assert(es[i as int] == e@);
            if entry_selected(e, mode, &range) && self.first_of_file(i, mode, &range) {
                let g = self.collect_group(&e.file_id, mode, &range);
                proof {
                    lemma_group_nonempty(es, mode, lo, hi, i as int);
                }
                let block_list = match self.blocks_from_sorted_extents(&g) {
                    Ok(b) => b,
                    Err(err) => {
                        proof {
                            lemma_list_err(es, mode, lo, hi, rpe, (i + 1) as nat, n as nat);
                        }
                        return Err(err);
                    },
                };
                let mut size: usize = 0;
                let mut k: usize = 0;
                while k < g.len()
                    invariant
                        k <= g@.len(),
                        g@.len() <= n,
                        n <= 32640,
                        size == records_size(entries_view(g@), k as nat),
                        size <= k * 32640,
                    decreases g@.len() - k,
                {
                    size = size + g[k].extent_size();
                    k = k + 1;
                }
                let item = FileItem {
                    user: g[0].owner(),
                    name: g[0].file_name(),
                    size,
                    block_list,
                };
                let ghost fv = files@;
                files.push(item);
                assert(items_view(files@) =~= items_view(fv).push(item@));
            }
            i = i + 1;
        }
        Ok(files)
    }

    /// No selected entry before `i` belongs to the file of entry `i`.
    fn first_of_file(&self, i: usize, mode: LsMode, range: &std::ops::Range<u16>) -> (r: bool)
        requires
            i < self.dir_entries@.len(),
            selected(self.spec_entries()[i as int], mode, range.start, range.end),
        ensures
            r == is_first_of_file(self.spec_entries(), mode, range.start, range.end, i as int),
    {
        let ghost es = self.spec_entries();
        let mut j: usize = 0;
        while j < i
            invariant
                es == self.spec_entries(),
                j <= i < self.dir_entries@.len(),
                forall|k: int|
                    0 <= k < j ==> !(selected(#[trigger] es[k], mode, range.start, range.end)
                        && es[k].file_id == es[i as int].file_id),
            decreases i - j,
        {
            let d = &self.dir_entries[j];
            assert(es[j as int] == d@);
            assert(es[i as int] == self.dir_entries@[i as int]@);
            if entry_selected(d, mode, range) && same_file(&d.file_id, &self.dir_entries[i].file_id) {
                return false;
            }
            j = j + 1;
        }
        true
    }

    /// The selected entries of file `id`, in directory order.
    fn collect_group(&self, id: &FileId, mode: LsMode, range: &std::ops::Range<u16>) -> (r: Vec<CpmDirEntry>)
        ensures
            entries_view(r@) == group_upto(self.spec_entries(), mode, range.start, range.end, id@, self.spec_entries().len()),
            r@.len() <= self.dir_entries@.len(),
    {
        let ghost es = self.spec_entries();
        let mut g: Vec<CpmDirEntry> = Vec::new();
        assert(entries_view(g@) =~= Seq::<DirEntryView>::empty());
        let mut j: usize = 0;
        while j < self.dir_entries.len()
            invariant
                es == self.spec_entries(),
                j <= self.dir_entries@.len(),
                g@.len() <= j,
                entries_view(g@) == group_upto(es, mode, range.start, range.end, id@, j as nat),
            decreases self.dir_entries@.len() - j,
        {
            let d = self.dir_entries[j];
            assert(es[j as int] == d@);
            if entry_selected(&d, mode, range) && same_file(&d.file_id, id) {
                let ghost gv = g@;
                g.push(d);
                assert(entries_view(g@) =~= entries_view(gv).push(d@));
            }
            j = j + 1;
        }
        g
    }

    /// Checks the extents of one file and returns its blocks in extent order.
    fn blocks_from_sorted_extents(&self, extents: &Vec<CpmDirEntry>) -> (r: Result<Vec<u16>, Error>)
        requires
            self.wf(),
        ensures
            match r {
                Ok(v) => spec_blocks_from_extents(entries_view(extents@), self.spec_rpe()) == Ok::<Seq<u16>, Error>(v@),
                Err(e) => spec_blocks_from_extents(entries_view(extents@), self.spec_rpe()) == Err::<Seq<u16>, Error>(e),
            },
    {
        let ghost g = entries_view(extents@);
        let n = extents.len();
        let records_per_extent = self.block_size() * BLOCKS_PER_EXTENT / RECORD_SIZE;
        // every extent number 0..n-1 exactly once
        let mut x: usize = 0;
        while x < n
            invariant
                g == entries_view(extents@),
                n == g.len(),
                x <= n,
                bad_extent_from(g, 0) == bad_extent_from(g, x as nat),
            decreases n - x,
        {
            let mut count: usize = 0;
            let mut k: usize = 0;
            while k < n
                invariant
                    g == entries_view(extents@),
                    n == g.len(),
                    k <= n,
                    count == extent_count(g.subrange(0, k as int), x as int),
                    count <= k,
                decreases n - k,
            {
                assert(g.subrange(0, k + 1).drop_last() =~= g.subrange(0, k as int));
                if extents[k].extent as usize == x {
                    count = count + 1;
                }
                k = k + 1;
            }
            assert(g.subrange(0, n as int) =~= g);
            if count != 1 {
                return Err(Error::ExtentIndex { expected: x });
            }
            x = x + 1;
        }
        // all extents but the last are full
        let mut x: usize = 0;
        while n > 0 && x < n - 1
            invariant
                g == entries_view(extents@),
                n == g.len(),
                x <= n,
                bad_extent_from(g, 0) is None,
                records_per_extent == self.spec_rpe(),
                short_extent_from(g, self.spec_rpe(), 0) == short_extent_from(g, self.spec_rpe(), x as nat),
            decreases n - x,
        {
            let k = self.find_extent_in(extents, x);
            if (extents[k].record_count as usize) < records_per_extent {
                return Err(Error::ShortExtent { index: x });
            }
            x = x + 1;
        }
        let mut block_list: Vec<u16> = Vec::new();
        let mut x: usize = 0;
        while x < n
            invariant
                g == entries_view(extents@),
                n == g.len(),
                x <= n,
                bad_extent_from(g, 0) is None,
                block_list@ == extent_blocks(g, x as nat),
            decreases n - x,
        {
            let k = self.find_extent_in(extents, x);
            let bl = extents[k].blocks();
            let mut j: usize = 0;
            let ghost start = block_list@;
            while j < bl.len()
                invariant
                    j <= bl@.len(),
                    block_list@ == start + bl@.subrange(0, j as int),
                decreases bl@.len() - j,
            {
                block_list.push(bl[j]);
                assert(block_list@ =~= start + bl@.subrange(0, j + 1));
                j = j + 1;
            }
            assert(bl@.subrange(0, bl@.len() as int) =~= bl@);
            x = x + 1;
        }
        Ok(block_list)
    }

    /// Index of the first entry with extent number `x` (there is one).
    fn find_extent_in(&self, extents: &Vec<CpmDirEntry>, x: usize) -> (k: usize)
        requires
            x < extents@.len(),
            bad_extent_from(entries_view(extents@), 0) is None,
        ensures
            k == find_extent(entries_view(extents@), x as int, extents@.len()),
            k < extents@.len(),
            entries_view(extents@)[k as int] == extents@[k as int]@,
    {
        let ghost g = entries_view(extents@);
        proof {
            lemma_extent_present(g, x as nat);
        }
        let mut k: usize = 0;
        while k < extents.len()
            invariant
                g == entries_view(extents@),
                k <= extents@.len(),
                find_extent(g, x as int, k as nat) == -1,
                find_extent(g, x as int, g.len()) >= 0,
            decreases extents@.len() - k,
        {
            if extents[k].extent as usize == x {
                proof {
                    lemma_find_extent_stable(g, x as int, (k + 1) as nat, g.len());
                }
                return k;
            }
            k = k + 1;
        }
        assert(false);
        0
    }

    /// What reading `file` gives (see `read_blocks`).
    pub closed spec fn spec_read_file(&self, file: FileItemView, text: bool) -> Result<Seq<u8>, Error> {
        read_blocks(self.disk, self.params, file.block_list, file.size, text)
    }

    /// Reads a file's bytes: its blocks in order, the last one cut to the
    /// file's size. In text mode the bytes stop before the first ^Z, and the
    /// rest of the file is not read.
    pub fn read_file(&self, file: &FileItem, text_mode: bool) -> (r: Result<Vec<u8>, Error>)
        requires
            self.wf(),
        ensures
            match r {
                Ok(v) => self.spec_read_file(file@, text_mode) == Ok::<Seq<u8>, Error>(v@),
                Err(e) => self.spec_read_file(file@, text_mode) == Err::<Seq<u8>, Error>(e),
            },
    {
        let block_size = self.block_size();
        let ghost blocks = file.block_list@;
        let ghost full = self.spec_read_file(file@, text_mode);
        let mut out: Vec<u8> = Vec::new();
        let mut size_left = file.size;
        let mut idx: usize = 0;
        assert(blocks.subrange(0, blocks.len() as int) =~= blocks);
        while idx < file.block_list.len()
            invariant
                self.wf(),
                blocks == file.block_list@,
                block_size == self.params.spec_block_size(),
                full == read_blocks(self.disk, self.params, blocks, file.size as int, text_mode),
                idx <= blocks.len(),
                full == prepend(
                    out@,
                    read_blocks(self.disk, self.params, blocks.subrange(idx as int, blocks.len() as int), size_left as int, text_mode),
                ),
            decreases blocks.len() - idx,
        {
            let block = file.block_list[idx];
            let ghost rest = blocks.subrange(idx as int, blocks.len() as int);
            assert(rest[0] == block);
            assert(rest.drop_first() =~= blocks.subrange(idx + 1, blocks.len() as int));
            let buf = match self.read_block(block) {
                Ok(b) => b,
                Err(e) => return Err(e),
            };
            proof {
                lemma_sectors_from_len(self.disk, self.params, block * self.params.sectors_per_block, self.params.sectors_per_block as nat);
                assert(self.params.sectors_per_block * self.params.sector_size == self.params.spec_block_size()) by (nonlinear_arith);
            }
            // every chunk is a whole block, but the last one may be shorter
            let chunk_size = if size_left < block_size {
                size_left
            } else {
                block_size
            };
            let ghost chunk = buf@.subrange(0, chunk_size as int);
            if text_mode {
                match find_ctrl_z(buf.as_slice(), chunk_size) {
                    Some(trim_at) => {
                        let ghost before = out@;
                        append_bytes(&mut out, &buf.as_slice()[0..trim_at]);
                        proof {
                            assert(chunk.subrange(0, trim_at as int) =~= buf@.subrange(0, trim_at as int));
                            assert(out@ == before + chunk.subrange(0, trim_at as int));
                        }
                        return Ok(out);
                    },
                    None => {},
                }
            }
            let ghost before = out@;
            append_bytes(&mut out, &buf.as_slice()[0..chunk_size]);
            proof {
                let r2 = read_blocks(self.disk, self.params, blocks.subrange(idx + 1, blocks.len() as int), size_left - chunk_size, text_mode);
                assert(prepend(before, prepend(chunk, r2)) == prepend(out@, r2)) by {
                    match r2 {
                        Ok(x) => {
                            assert(before + (chunk + x) =~= out@ + x);
                        },
                        Err(_) => {},
                    }
                }
            }
            size_left = size_left - chunk_size;
            idx = idx + 1;
        }
        if size_left != 0 {
            return Err(Error::SizeMismatch);
        }
        Ok(out)
    }

    /// The free blocks a write may take, lowest first: blocks of the
    /// directory are never among them.
    pub closed spec fn spec_free_blocks(&self) -> Seq<u16> {
        free_blocks_upto(self.used_blocks@, self.params.dir_blocks as int, self.used_blocks@.len())
    }

    /// The unused directory slots, lowest first.
    pub closed spec fn spec_free_slots(&self) -> Seq<usize> {
        free_slots_upto(self.spec_entries(), self.dir_entries@.len())
    }

    /// The first `count` free blocks (first fit, lowest index first).
    fn get_free_blocks(&self, count: usize) -> (r: Result<Vec<u16>, Error>)
        requires
            self.wf(),
        ensures
            self.spec_free_blocks().len() >= count ==> (r matches Ok(v) && v@ == self.spec_free_blocks().subrange(0, count as int)),
            self.spec_free_blocks().len() < count ==> r == Err::<Vec<u16>, Error>(
                Error::NotEnoughBlocks { available: self.spec_free_blocks().len() as usize, required: count },
            ),
    {
        let ghost used = self.used_blocks@;
        let ghost lo = self.params.dir_blocks as int;
        let lo_exec = self.params.dir_blocks as usize;
        let n = self.used_blocks.len();
        let mut blocks: Vec<u16> = Vec::new();
        let mut b: usize = 0;
        while b < n && blocks.len() < count
            invariant
                self.wf(),
                used == self.used_blocks@,
                lo == self.params.dir_blocks,
                lo_exec == lo,
                n == used.len(),
                n <= 0xFFFF,
                b <= n,
                blocks@ == free_blocks_upto(used, lo, b as nat),
                blocks@.len() <= count,
            decreases n - b,
        {
            if b >= lo_exec && !self.used_blocks[b] {
                blocks.push(b as u16);
            }
            b = b + 1;
        }
        proof {
            lemma_free_blocks_prefix(used, lo, b as nat, n as nat);
            lemma_free_blocks_props(used, lo, n as nat);
        }
        if blocks.len() < count {
            assert(b == n);
            return Err(Error::NotEnoughBlocks { available: blocks.len(), required: count });
        }
        assert(blocks@ =~= self.spec_free_blocks().subrange(0, count as int));
        Ok(blocks)
    }

    /// The first `count` unused directory slots, lowest index first.
    fn get_free_dents(&self, count: usize) -> (r: Result<Vec<usize>, Error>)
        requires
            self.wf(),
        ensures
            self.spec_free_slots().len() >= count ==> (r matches Ok(v) && v@ == self.spec_free_slots().subrange(0, count as int)),
            self.spec_free_slots().len() < count ==> r == Err::<Vec<usize>, Error>(
                Error::NotEnoughDirEntries { available: self.spec_free_slots().len() as usize, required: count },
            ),
    {
        let ghost es = self.spec_entries();
        let n = self.dir_entries.len();
        let mut dents: Vec<usize> = Vec::new();
        let mut i: usize = 0;
        while i < n && dents.len() < count
            invariant
                es == self.spec_entries(),
                n == self.dir_entries@.len(),
                i <= n,
                dents@ == free_slots_upto(es, i as nat),
                dents@.len() <= count,
            decreases n - i,
        {
            assert(es[i as int] == self.dir_entries@[i as int]@);
            if !self.dir_entries[i].used() {
                dents.push(i);
            }
            i = i + 1;
        }
        proof {
            lemma_free_slots_prefix(es, i as nat, n as nat);
            lemma_free_slots_props(es, n as nat);
        }
        if dents.len() < count {
            assert(i == n);
            return Err(Error::NotEnoughDirEntries { available: dents.len(), required: count });
        }
        assert(dents@ =~= self.spec_free_slots().subrange(0, count as int));
        Ok(dents)
    }

    /// The filesystem holds `data` as the file `item`: the item's blocks,
    /// cut to its size, are those bytes.
    pub closed spec fn holds_file(&self, item: FileItemView, data: Seq<u8>) -> bool {
        let bs = self.params.spec_block_size();
        &&& item.size == data.len()
        &&& item.block_list.len() == blocks_needed(data.len() as int, bs)
        &&& forall|k: int|
            0 <= k < item.block_list.len() ==> ((#[trigger] self.block_data(item.block_list[k] as int)) matches Some(d)
                && d.len() == bs && d.subrange(0, chunk_len(data.len() as int, bs, k)) == data.subrange(
                k * bs,
                k * bs + chunk_len(data.len() as int, bs, k),
            ))
    }

    /// Writes `data` as a new file `id`: takes the first free blocks and
    /// directory slots it needs (lowest first), writes the data into the
    /// blocks in order (in text mode with a ^Z after the data in a last block
    /// that is not full), marks the blocks used and installs one directory
    /// entry for each 8 blocks. Returns the item of the new file.
    ///
    /// With too few free blocks or slots nothing changes. The directory is
    /// changed in memory only.
    pub fn write_file(&mut self, id: &FileId, data: &[u8], text_mode: bool) -> (r: Result<FileItem, Error>)
        requires
            old(self).wf(),
        ensures
            final(self).wf(),
            final(self).spec_params() == old(self).spec_params(),
            final(self).spec_num_blocks() == old(self).spec_num_blocks(),
            ({
                let bs = old(self).spec_params().spec_block_size();
                let len = data@.len() as int;
                let nb = blocks_needed(len, bs);
                let nd = extents_needed(nb);
                let free = old(self).spec_free_blocks();
                let slots = old(self).spec_free_slots();
                &&& free.len() < nb ==> r == Err::<FileItem, Error>(
                    Error::NotEnoughBlocks { available: free.len() as usize, required: nb as usize },
                ) && *final(self) == *old(self)
                &&& free.len() >= nb && slots.len() < nd ==> r == Err::<FileItem, Error>(
                    Error::NotEnoughDirEntries { available: slots.len() as usize, required: nd as usize },
                ) && *final(self) == *old(self)
                &&& free.len() >= nb && slots.len() >= nd ==> (r is Ok <==> forall|k: int|
                    0 <= k < nb ==> (#[trigger] old(self).block_data(free[k] as int)) is Some)
                &&& free.len() >= nb && slots.len() >= nd && r is Err ==> (r matches Err(e) && e is UnreadableBlock)
                &&& match r {
                    Ok(item) => {
                    &&& item@.block_list == free.subrange(0, nb)
                    &&& item@.size == len
                    &&& item@.user == (if id.user != DELETED_USER {
                        Some(id.user)
                    } else {
                        None
                    })
                    &&& item@.name == lossy_text(filename_bytes(id@))
                    &&& final(self).holds_file(item@, data@)
                    &&& forall|k: int|
                        0 <= k < nb ==> #[trigger] final(self).block_data(free[k] as int) == Some(
                            file_chunk(data@, bs, k, text_mode) + old(self).block_data(
                                free[k] as int,
                            )->0.subrange(file_chunk(data@, bs, k, text_mode).len() as int, bs),
                        )
                    &&& forall|b: int|
                        0 <= b && (forall|k: int| 0 <= k < nb ==> free[k] != b) ==> #[trigger] final(self).block_data(b) == old(self).block_data(b)
                    &&& forall|b: int|
                        0 <= b < old(self).spec_num_blocks() ==> #[trigger] final(self).spec_used()[b] == (
                        old(self).spec_used()[b] || exists|k: int| 0 <= k < nb && free[k] == b)
                    &&& final(self).spec_entries().len() == old(self).spec_entries().len()
                    &&& forall|e: int|
                        0 <= e < nd ==> #[trigger] final(self).spec_entries()[slots[e] as int] == new_entry_view(
                            id@,
                            e,
                            extent_records(len, bs, e),
                            extent_group(free.subrange(0, nb), e),
                        )
                    &&& forall|i: int|
                        0 <= i < old(self).spec_entries().len() && (forall|e: int| 0 <= e < nd ==> slots[e] != i)
                            ==> #[trigger] final(self).spec_entries()[i] == old(self).spec_entries()[i]
                    },
                    Err(_) => true,
                }
            }),
    {
        let ghost old_fs = *self;
        let ghost p = self.params;
        let block_size = self.block_size();
        let file_size = data.len();
        let ghost len = file_size as int;
        let ghost bs = block_size as int;
        proof {
            vstd::arithmetic::div_mod::lemma_div_is_ordered_by_denominator(file_size as int, 2, block_size as int);
        }
        let num_blocks = file_size / block_size + if file_size % block_size != 0 {
            1
        } else {
            0
        };
        let num_dents = num_blocks / BLOCKS_PER_EXTENT + if num_blocks % BLOCKS_PER_EXTENT != 0 {
            1
        } else {
            0
        };
        proof {
            lemma_free_blocks_props(self.used_blocks@, p.dir_blocks as int, self.used_blocks@.len());
            lemma_free_slots_props(self.spec_entries(), self.dir_entries@.len());
        }
        let blocks = match self.get_free_blocks(num_blocks) {
            Ok(b) => b,
            Err(e) => return Err(e),
        };
        let dents = match self.get_free_dents(num_dents) {
            Ok(d) => d,
            Err(e) => return Err(e),
        };
        let ghost free = old_fs.spec_free_blocks();
        let ghost slots = old_fs.spec_free_slots();
        let mut k: usize = 0;
        let mut start: usize = 0;
        while k < num_blocks
            invariant
                self.wf(),
                self.params == p,
                p == old_fs.params,
                old_fs == *old(self),
                self.num_blocks == old_fs.num_blocks,
                self.spec_entries() == old_fs.spec_entries(),
                self.dir_entries@.len() == old_fs.dir_entries@.len(),
                old_fs.wf(),
                block_size == bs,
                bs == p.spec_block_size(),
                bs > 0,
                len == data@.len(),
                file_size == len,
                num_blocks == blocks_needed(len, bs),
                num_dents == extents_needed(num_blocks as int),
                slots == old_fs.spec_free_slots(),
                slots.len() >= num_dents,
                blocks@ == free.subrange(0, num_blocks as int),
                free == old_fs.spec_free_blocks(),
                free.len() >= num_blocks,
                forall|i: int| 0 <= i < free.len() ==> {
                    let b = #[trigger] free[i];
                    p.dir_blocks <= b < old_fs.used_blocks@.len() && !old_fs.used_blocks@[b as int]
                },
                forall|i: int, j: int| 0 <= i < j < free.len() ==> #[trigger] free[i] < #[trigger] free[j],
                k <= num_blocks,
                k < num_blocks ==> start == k * bs,
                forall|j: int|
                    0 <= j < k ==> old_fs.block_data(free[j] as int) is Some && #[trigger] self.block_data(free[j] as int) == Some(
                        file_chunk(data@, bs, j, text_mode) + old_fs.block_data(free[j] as int)->0.subrange(
                            file_chunk(data@, bs, j, text_mode).len() as int,
                            bs,
                        ),
                    ),
                forall|b: int|
                    0 <= b && (forall|j: int| 0 <= j < k ==> free[j] != b) ==> #[trigger] self.block_data(b)
                        == old_fs.block_data(b),
                forall|b: int|
                    0 <= b < old_fs.num_blocks ==> #[trigger] self.used_blocks@[b] == (old_fs.used_blocks@[b]
                        || exists|j: int| 0 <= j < k && free[j] == b),
            decreases num_blocks - k,
        {
            proof {
                lemma_alloc_arith(len, bs, k as int);
            }
            let end = if file_size - start < block_size {
                file_size
            } else {
                start + block_size
            };
            let mut chunk = crate::bytes::copy_range(data, start, end);
            // a text file ends with ^Z, unless it fills its last block
            if text_mode && chunk.len() < block_size {
                chunk.push(CTRL_Z);
            }
            assert(chunk@ =~= file_chunk(data@, bs, k as int, text_mode));
            let block = blocks[k];
            assert(block == free[k as int]);
            let ghost before = *self;
            match self.write_block(block, chunk.as_slice()) {
                Ok(()) => {},
                Err(e) => {
                    proof {
                        assert forall|j: int| 0 <= j < k implies free[j] != block by {
                            assert(free[j] < free[k as int]);
                        }
                        assert(before.block_data(block as int) == old_fs.block_data(block as int));
                        assert(!(old_fs.block_data(free[k as int] as int) is Some));
                    }
                    return Err(e);
                },
            }
            let ghost after_write = *self;
            self.used_blocks.set(block as usize, true);
            proof {
                assert forall|x: int| #[trigger] self.block_data(x) == after_write.block_data(x) by {}
                assert forall|x: int| x != block && 0 <= x implies #[trigger] after_write.block_data(x) == before.block_data(x) by {}
                assert(self.spec_entries().len() == self.dir_entries@.len());
                assert(old_fs.spec_entries().len() == old_fs.dir_entries@.len());
                assert forall|j: int| 0 <= j < k + 1 implies old_fs.block_data(free[j] as int) is Some
                    && #[trigger] self.block_data(free[j] as int) == Some(
                    file_chunk(data@, bs, j, text_mode) + old_fs.block_data(free[j] as int)->0.subrange(
                        file_chunk(data@, bs, j, text_mode).len() as int,
                        bs,
                    ),
                ) by {
                    if j < k {
                        assert(free[j] < free[k as int]);
                        assert(before.block_data(free[j] as int) == after_write.block_data(free[j] as int));
                        assert(self.block_data(free[j] as int) == after_write.block_data(free[j] as int));
                    } else {
                        assert(before.block_data(block as int) == old_fs.block_data(block as int)) by {
                            assert forall|i: int| 0 <= i < k implies free[i] != block by {
                                assert(free[i] < free[k as int]);
                            }
                        }
                    }
                }
                assert forall|b: int|
                    0 <= b && (forall|j: int| 0 <= j < k + 1 ==> free[j] != b) implies #[trigger] self.block_data(b)
                    == old_fs.block_data(b) by {
                    assert(free[k as int] != b);
                    assert(before.block_data(b) == old_fs.block_data(b));
                    assert(self.block_data(b) == after_write.block_data(b));
                    assert(after_write.block_data(b) == before.block_data(b));
                }
                assert forall|b: int|
                    0 <= b < old_fs.num_blocks implies #[trigger] self.used_blocks@[b] == (old_fs.used_blocks@[b]
                    || exists|j: int| 0 <= j < k + 1 && free[j] == b) by {
                    if b == block {
                        assert(free[k as int] == b);
                    } else {
                        if exists|j: int| 0 <= j < k + 1 && free[j] == b {
                            let j = choose|j: int| 0 <= j < k + 1 && free[j] == b;
                            assert(j < k);
                        }
                    }
                }
            }
            k = k + 1;
            start = end;
            proof {
                if k < num_blocks {
                    lemma_alloc_arith(len, bs, k as int);
                    assert(k * bs == (k - 1) * bs + bs) by (nonlinear_arith);
                }
            }
        }
        let ghost after_blocks = *self;
        let mut size_left = file_size;
        let max_bytes_per_extent = block_size * BLOCKS_PER_EXTENT;
        let mut e: usize = 0;
        while e < num_dents
            invariant
                self.wf(),
                self.params == after_blocks.params,
                self.disk == after_blocks.disk,
                self.num_blocks == after_blocks.num_blocks,
                self.used_blocks == after_blocks.used_blocks,
                self.dir_entries@.len() == old_fs.dir_entries@.len(),
                old_fs == *old(self),
                after_blocks.params == p,
                p == old_fs.params,
                free == old_fs.spec_free_blocks(),
                free.len() >= num_blocks,
                forall|j: int|
                    0 <= j < num_blocks ==> old_fs.block_data(free[j] as int) is Some && #[trigger] after_blocks.block_data(free[j] as int) == Some(
                        file_chunk(data@, bs, j, text_mode) + old_fs.block_data(free[j] as int)->0.subrange(
                            file_chunk(data@, bs, j, text_mode).len() as int,
                            bs,
                        ),
                    ),
                forall|b: int|
                    0 <= b && (forall|j: int| 0 <= j < num_blocks ==> free[j] != b) ==> #[trigger] after_blocks.block_data(b)
                        == old_fs.block_data(b),
                forall|b: int|
                    0 <= b < old_fs.num_blocks ==> #[trigger] after_blocks.used_blocks@[b] == (old_fs.used_blocks@[b]
                        || exists|j: int| 0 <= j < num_blocks && free[j] == b),
                bs == p.spec_block_size(),
                bs > 0,
                bs <= 4080,
                max_bytes_per_extent == 8 * bs,
                len == data@.len(),
                num_blocks == blocks_needed(len, bs),
                num_dents == extents_needed(num_blocks as int),
                blocks@ == free.subrange(0, num_blocks as int),
                blocks@.len() == num_blocks,
                dents@ == slots.subrange(0, num_dents as int),
                dents@.len() == num_dents,
                slots == old_fs.spec_free_slots(),
                slots.len() >= num_dents,
                forall|i: int| 0 <= i < slots.len() ==> {
                    let q = #[trigger] slots[i];
                    q < old_fs.dir_entries@.len() && !old_fs.spec_entries()[q as int].used()
                },
                forall|i: int, j: int| 0 <= i < j < slots.len() ==> #[trigger] slots[i] < #[trigger] slots[j],
                e <= num_dents,
                e < num_dents ==> size_left == len - e * 8 * bs,
                forall|j: int|
                    0 <= j < e ==> #[trigger] self.spec_entries()[slots[j] as int] == new_entry_view(
                        id@,
                        j,
                        extent_records(len, bs, j),
                        extent_group(free.subrange(0, num_blocks as int), j),
                    ),
                forall|i: int|
                    0 <= i < old_fs.spec_entries().len() && (forall|j: int| 0 <= j < e ==> slots[j] != i)
                        ==> #[trigger] self.spec_entries()[i] == old_fs.spec_entries()[i],
            decreases num_dents - e,
        {
            proof {
                lemma_extent_arith(num_blocks as int, e as int);
                lemma_alloc_arith(len, bs, 8 * e);
                assert(8 * e < num_blocks);
                assert((8 * e) * bs < len);
                assert(e * 8 * bs == (8 * e) * bs) by (nonlinear_arith);
            }
            let size = if size_left < max_bytes_per_extent {
                size_left
            } else {
                max_bytes_per_extent
            };
            size_left = size_left - size;
            let records = size / RECORD_SIZE + if size % RECORD_SIZE != 0 {
                1
            } else {
                0
            };
            let group_start = BLOCKS_PER_EXTENT * e;
            let group_end = if num_blocks - group_start > BLOCKS_PER_EXTENT {
                group_start + BLOCKS_PER_EXTENT
            } else {
                num_blocks
            };
            let group = &blocks.as_slice()[group_start..group_end];
            assert(group@ =~= extent_group(free.subrange(0, num_blocks as int), e as int));
            let entry = CpmDirEntry::new(*id, e as u16, records as u8, group);
            let slot = dents[e];
            assert(slot == slots[e as int]);
            let ghost ev = self.spec_entries();
            self.dir_entries.set(slot, entry);
            proof {
                assert(self.spec_entries() =~= ev.update(slot as int, entry@));
                assert(entry@ == new_entry_view(
                    id@,
                    e as int,
                    extent_records(len, bs, e as int),
                    extent_group(free.subrange(0, num_blocks as int), e as int),
                ));
                assert forall|j: int| 0 <= j < e + 1 implies #[trigger] self.spec_entries()[slots[j] as int] == new_entry_view(
                    id@,
                    j,
                    extent_records(len, bs, j),
                    extent_group(free.subrange(0, num_blocks as int), j),
                ) by {
                    if j < e {
                        assert(slots[j] < slots[e as int]);
                    }
                }
                assert forall|i: int|
                    0 <= i < old_fs.spec_entries().len() && (forall|j: int| 0 <= j < e + 1 ==> slots[j] != i)
                    implies #[trigger] self.spec_entries()[i] == old_fs.spec_entries()[i] by {
                    assert(slots[e as int] != i);
                }
                if e + 1 < num_dents {
                    lemma_extent_arith(num_blocks as int, e + 1);
                    lemma_alloc_arith(len, bs, 8 * (e + 1));
                    assert(8 * (e + 1) < num_blocks);
                    assert((8 * (e + 1)) * bs < len);
                    assert((e + 1) * 8 * bs == (8 * (e + 1)) * bs) by (nonlinear_arith);
                    assert((e + 1) * 8 * bs == e * 8 * bs + 8 * bs) by (nonlinear_arith);
                }
            }
            e = e + 1;
        }
        let user = if id.user != DELETED_USER {
            Some(id.user)
        } else {
            None
        };
        let item = FileItem { user, name: id.filename(), size: file_size, block_list: blocks };
        proof {
            assert forall|x: int| #[trigger] self.block_data(x) == after_blocks.block_data(x) by {}
            assert(self.spec_used() == after_blocks.spec_used());
            assert forall|k: int| 0 <= k < item@.block_list.len() implies ((#[trigger] self.block_data(item@.block_list[k] as int)) matches Some(d)
                && d.len() == bs && d.subrange(0, chunk_len(len, bs, k)) == data@.subrange(
                k * bs,
                k * bs + chunk_len(len, bs, k),
            )) by {
                let b = free[k];
                assert(after_blocks.block_data(free[k] as int) is Some);
                let od = old_fs.block_data(b as int)->0;
                let fc = file_chunk(data@, bs, k, text_mode);
                lemma_sectors_from_len(old_fs.disk, p, b * p.sectors_per_block, p.sectors_per_block as nat);
                assert(p.sectors_per_block * p.sector_size == p.spec_block_size()) by (nonlinear_arith);
                lemma_alloc_arith(len, bs, k);
                let d = fc + od.subrange(fc.len() as int, bs);
                assert(d.subrange(0, chunk_len(len, bs, k)) =~= data@.subrange(k * bs, k * bs + chunk_len(len, bs, k)));
            }
        }
        proof {
            assert forall|k: int| 0 <= k < num_blocks implies (#[trigger] old_fs.block_data(free[k] as int)) is Some by {
                assert(after_blocks.block_data(free[k] as int) is Some);
            }
        }
        Ok(item)
    }

    /// A file that the filesystem holds reads back (not in text mode) as
    /// exactly its bytes. `write_file` leaves the file it returns held.
    pub proof fn lemma_write_then_read(&self, item: FileItemView, data: Seq<u8>)
        requires
            self.wf(),
            self.holds_file(item, data),
        ensures
            self.spec_read_file(item, false) == Ok::<Seq<u8>, Error>(data),
    {
        let bs = self.params.spec_block_size();
        assert(bs > 0) by (nonlinear_arith)
            requires
                self.params.sector_size >= 128,
                self.params.sectors_per_block >= 1,
                bs == self.params.sector_size * self.params.sectors_per_block,
        ;
        let bl = item.block_list;
        let len = data.len() as int;
        assert forall|j: int| 0 <= j < bl.len() implies ((#[trigger] disk_block(self.disk, self.params, bl[j] as int)) matches Some(d)
            && d.len() == bs && d.subrange(0, chunk_len(len, bs, j)) == data.subrange(j * bs, j * bs + chunk_len(len, bs, j))) by {
            assert(self.block_data(bl[j] as int) == disk_block(self.disk, self.params, bl[j] as int));
        }
        lemma_read_held(self.disk, self.params, item.block_list, data, 0);
        assert(item.block_list.subrange(0, item.block_list.len() as int) =~= item.block_list);
        assert(data.subrange(0, data.len() as int) =~= data);
    }
}

} // verus!
