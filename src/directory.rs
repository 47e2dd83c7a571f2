//! The directory: decoding its slots and checking which blocks files own.
use vstd::prelude::*;

use crate::cpm_fs::{disk_block, lemma_sectors_from_len, read_disk_block};
use crate::dir_entry::{
    CpmDirEntry, DIR_ENTRY_SIZE, DirEntryView, spec_entry_from_bytes, trim_zeros,
};
use crate::dsk::image::DskImage;
use crate::error::Error;
use crate::geometry::Params;

verus! {

/// The entries in the first `k` 32-byte slots of `d`.
pub open spec fn decode_slots(d: Seq<u8>, k: nat) -> Result<Seq<DirEntryView>, Error>
    decreases k,
{
    if k == 0 {
        Ok(Seq::empty())
    } else {
        match decode_slots(d, (k - 1) as nat) {
            Err(e) => Err(e),
            Ok(prev) => match spec_entry_from_bytes(d.subrange(32 * (k - 1), 32 * k as int)) {
                Err(e) => Err(e),
                Ok(v) => Ok(prev.push(v)),
            },
        }
    }
}

/// The entries of the first `n` directory blocks.
pub open spec fn directory_upto(disk: DskImage, p: Params, n: nat) -> Result<Seq<DirEntryView>, Error>
    decreases n,
{
    if n == 0 {
        Ok(Seq::empty())
    } else {
        match directory_upto(disk, p, (n - 1) as nat) {
            Err(e) => Err(e),
            Ok(prev) => match disk_block(disk, p, n - 1) {
                None => Err(Error::UnreadableBlock { block: (n - 1) as u16 }),
                Some(d) => match decode_slots(d, (p.spec_block_size() / 32) as nat) {
                    Err(e) => Err(e),
                    Ok(es) => Ok(prev + es),
                },
            },
        }
    }
}

/// The directory: every slot of the directory blocks, decoded.
pub open spec fn spec_directory(disk: DskImage, p: Params) -> Result<Seq<DirEntryView>, Error> {
    directory_upto(disk, p, p.dir_blocks as nat)
}

pub open spec fn entries_view(v: Seq<CpmDirEntry>) -> Seq<DirEntryView> {
    v.map_values(|e: CpmDirEntry| e@)
}

/// The non-zero values of `s`, in order.
pub open spec fn nonzero(s: Seq<u16>) -> Seq<u16>
    decreases s.len(),
{
    if s.len() == 0 {
        Seq::empty()
    } else if s.last() == 0 {
        nonzero(s.drop_last())
    } else {
        nonzero(s.drop_last()).push(s.last())
    }
}

/// The block pointers of the used entries among the first `n`, in order.
pub open spec fn owned_upto(es: Seq<DirEntryView>, n: nat) -> Seq<u16>
    decreases n,
{
    if n == 0 {
        Seq::empty()
    } else if es[n - 1].used() {
        owned_upto(es, (n - 1) as nat) + nonzero(trim_zeros(es[n - 1].blocks))
    } else {
        owned_upto(es, (n - 1) as nat)
    }
}

/// The block pointers of all used entries.
pub open spec fn owned_blocks(es: Seq<DirEntryView>) -> Seq<u16> {
    owned_upto(es, es.len())
}

pub open spec fn all_distinct(s: Seq<u16>) -> bool {
    forall|i: int, j: int| 0 <= i < j < s.len() ==> #[trigger] s[i] != #[trigger] s[j]
}

/// No block has two owners and every owned block exists.
pub open spec fn ownership_ok(es: Seq<DirEntryView>, num_blocks: int) -> bool {
    &&& all_distinct(owned_blocks(es))
    &&& forall|i: int| 0 <= i < owned_blocks(es).len() ==> #[trigger] owned_blocks(es)[i] < num_blocks
}

pub(crate) proof fn lemma_owned_prefix(es: Seq<DirEntryView>, n: nat, m: nat)
    requires
        n <= m,
    ensures
        owned_upto(es, n).len() <= owned_upto(es, m).len(),
        forall|i: int|
            0 <= i < owned_upto(es, n).len() ==> #[trigger] owned_upto(es, m)[i] == owned_upto(es, n)[i],
    decreases m,
{
    if n < m {
        lemma_owned_prefix(es, n, (m - 1) as nat);
    }
}

pub(crate) proof fn lemma_directory_err(disk: DskImage, p: Params, n: nat, m: nat)
    requires
        n <= m,
        directory_upto(disk, p, n) is Err,
    ensures
        directory_upto(disk, p, m) == directory_upto(disk, p, n),
    decreases m,
{
    if n < m {
        lemma_directory_err(disk, p, n, (m - 1) as nat);
    }
}

pub(crate) proof fn lemma_slots_err(d: Seq<u8>, k: nat, m: nat)
    requires
        k <= m,
        decode_slots(d, k) is Err,
    ensures
        decode_slots(d, m) == decode_slots(d, k),
    decreases m,
{
    if k < m {
        lemma_slots_err(d, k, (m - 1) as nat);
    }
}

/// Reads and decodes the directory blocks, slot by slot.
pub(crate) fn read_directory(disk: &DskImage, params: &Params) -> (r: Result<Vec<CpmDirEntry>, Error>)
    requires
        disk.wf(),
        params.valid_for(disk.spec_num_cylinders(), disk.spec_num_sides()),
    ensures
        r matches Ok(v) ==> v@.len() <= 32640,
        match r {
            Ok(v) => spec_directory(*disk, *params) == Ok::<Seq<DirEntryView>, Error>(entries_view(v@)),
            Err(e) => spec_directory(*disk, *params) == Err::<Seq<DirEntryView>, Error>(e),
        },
{
    let ghost p = *params;
    let slots: usize = params.sector_size as usize * params.sectors_per_block as usize / DIR_ENTRY_SIZE;
    assert(slots <= 128);
    let mut entries: Vec<CpmDirEntry> = Vec::new();
    assert(entries_view(entries@) =~= Seq::<DirEntryView>::empty());
    let mut b: u8 = 0;
    while b < params.dir_blocks
        invariant
            disk.wf(),
            p == *params,
            params.valid_for(disk.spec_num_cylinders(), disk.spec_num_sides()),
            slots == p.spec_block_size() / 32,
            b <= p.dir_blocks,
            entries@.len() <= b * 128,
            directory_upto(*disk, p, b as nat) == Ok::<Seq<DirEntryView>, Error>(entries_view(entries@)),
        decreases p.dir_blocks - b,
    {
        let data = match read_disk_block(disk, params, b as u16) {
            Ok(d) => d,
            Err(e) => {
                proof {
                    lemma_directory_err(*disk, p, (b + 1) as nat, p.dir_blocks as nat);
                }
                return Err(e);
            },
        };
        proof {
            lemma_sectors_from_len(*disk, p, b * p.sectors_per_block, p.sectors_per_block as nat);
            assert(p.sectors_per_block * p.sector_size == p.spec_block_size()) by (nonlinear_arith);
        }
        let ghost prev = entries_view(entries@);
        let mut k: usize = 0;
        while k < slots
            invariant
                disk.wf(),
                p == *params,
                params.valid_for(disk.spec_num_cylinders(), disk.spec_num_sides()),
                b < p.dir_blocks,
                disk_block(*disk, p, b as int) == Some(data@),
                directory_upto(*disk, p, b as nat) == Ok::<Seq<DirEntryView>, Error>(prev),
                entries@.len() <= b * 128 + k,
                slots == p.spec_block_size() / 32,
                slots <= 128,
                data@.len() == p.spec_block_size(),
                k <= slots,
                decode_slots(data@, k as nat) matches Ok(es) && entries_view(entries@) == prev + es,
            decreases slots - k,
        {
            let mut raw: [u8; 32] = [0u8; 32];
            let mut i: usize = 0;
            while i < DIR_ENTRY_SIZE
                invariant
                    k < slots,
                    slots <= 128,
                    slots == p.spec_block_size() / 32,
                    data@.len() == p.spec_block_size(),
                    i <= 32,
                    forall|j: int| 0 <= j < i ==> raw@[j] == data@[32 * k + j],
                decreases 32 - i,
            {
                raw[i] = data[DIR_ENTRY_SIZE * k + i];
                i = i + 1;
            }
            assert(raw@ =~= data@.subrange(32 * k, 32 * (k + 1)));
            let e = match CpmDirEntry::from_bytes(&raw) {
                Ok(e) => e,
                Err(e) => {
                    proof {
                        lemma_slots_err(data@, (k + 1) as nat, slots as nat);
                        assert(directory_upto(*disk, p, (b + 1) as nat) == Err::<Seq<DirEntryView>, Error>(e));
                        lemma_directory_err(*disk, p, (b + 1) as nat, p.dir_blocks as nat);
                    }
                    return Err(e);
                },
            };
            let ghost es = decode_slots(data@, k as nat)->Ok_0;
            let ghost ev = entries@;
            entries.push(e);
            assert(entries_view(entries@) =~= entries_view(ev).push(e@));
            assert(entries_view(entries@) =~= prev + es.push(e@));
            k = k + 1;
        }
        proof {
            assert(directory_upto(*disk, p, (b + 1) as nat) == Ok::<Seq<DirEntryView>, Error>(
                entries_view(entries@),
            ));
        }
        b = b + 1;
    }
    Ok(entries)
}

/// Marks the blocks owned by used entries; a block owned twice, or beyond
/// the last block, is an error.
pub(crate) fn calc_used_blocks(num_blocks: u16, dir_entries: &Vec<CpmDirEntry>) -> (r: Result<Vec<bool>, Error>)
    ensures
        r is Ok <==> ownership_ok(entries_view(dir_entries@), num_blocks as int),
        r matches Ok(used) ==> used@.len() == num_blocks && forall|b: int|
            0 <= b < num_blocks ==> #[trigger] used@[b] == owned_blocks(
                entries_view(dir_entries@),
            ).contains(b as u16),
        r matches Err(e) ==> e is DuplicateBlock || e is BlockOutOfRange,
{
    let ghost es = entries_view(dir_entries@);
    let mut used_blocks: Vec<bool> = Vec::new();
    let mut b: u16 = 0;
    while b < num_blocks
        invariant
            b <= num_blocks,
            used_blocks@.len() == b,
            forall|k: int| 0 <= k < b ==> !#[trigger] used_blocks@[k],
        decreases num_blocks - b,
    {
        used_blocks.push(false);
        b = b + 1;
    }
    let mut i: usize = 0;
    while i < dir_entries.len()
        invariant
            es == entries_view(dir_entries@),
            i <= dir_entries@.len(),
            used_blocks@.len() == num_blocks,
            all_distinct(owned_upto(es, i as nat)),
            forall|k: int| 0 <= k < owned_upto(es, i as nat).len() ==> #[trigger] owned_upto(es, i as nat)[k] < num_blocks,
            forall|k: int| 0 <= k < num_blocks ==> #[trigger] used_blocks@[k] == owned_upto(es, i as nat).contains(k as u16),
        decreases dir_entries@.len() - i,
    {
        let e = &dir_entries[i];
        assert(es[i as int] == e@);
        if e.used() {
            let bl = e.blocks();
            let ghost base = owned_upto(es, i as nat);
            let mut j: usize = 0;
            while j < bl.len()
                invariant
                    es == entries_view(dir_entries@),
                    i < dir_entries@.len(),
                    es[i as int].used(),
                    bl@ == trim_zeros(es[i as int].blocks),
                    base == owned_upto(es, i as nat),
                    j <= bl@.len(),
                    used_blocks@.len() == num_blocks,
                    all_distinct(base + nonzero(bl@.subrange(0, j as int))),
                    forall|k: int| 0 <= k < (base + nonzero(bl@.subrange(0, j as int))).len() ==> #[trigger] (base + nonzero(bl@.subrange(0, j as int)))[k] < num_blocks,
                    forall|k: int| 0 <= k < num_blocks ==> #[trigger] used_blocks@[k] == (base + nonzero(bl@.subrange(0, j as int))).contains(k as u16),
                decreases bl@.len() - j,
            {
                let blk = bl[j];
                let ghost cur = base + nonzero(bl@.subrange(0, j as int));
                assert(bl@.subrange(0, j + 1).drop_last() =~= bl@.subrange(0, j as int));
                if blk != 0 {
                    let ghost next = cur.push(blk);
                    assert(base + nonzero(bl@.subrange(0, j + 1)) =~= next);
                    if blk >= num_blocks {
                        proof {
                            assert(next[next.len() - 1] == blk);
                            lemma_owned_extends(es, i as nat, bl@, j as nat);
                            assert(owned_blocks(es)[next.len() - 1] == blk);
                        }
                        return Err(Error::BlockOutOfRange { block: blk });
                    }
                    if used_blocks[blk as usize] {
                        proof {
                            assert(cur.contains(blk));
                            let q = choose|q: int| 0 <= q < cur.len() && cur[q] == blk;
                            assert(next[q] == next[next.len() - 1]);
                            lemma_owned_extends(es, i as nat, bl@, j as nat);
                            assert(owned_blocks(es)[q] == owned_blocks(es)[next.len() - 1]);
                        }
                        return Err(Error::DuplicateBlock { block: blk });
                    }
                    used_blocks.set(blk as usize, true);
                    proof {
                        assert forall|k: int| 0 <= k < num_blocks implies #[trigger] used_blocks@[k] == next.contains(k as u16) by {
                            if k == blk {
                                assert(next[next.len() - 1] == blk);
                            } else {
                                if next.contains(k as u16) {
                                    let q = choose|q: int| 0 <= q < next.len() && next[q] == k as u16;
                                    assert(q < cur.len());
                                    assert(cur[q] == k as u16);
                                }
                                if cur.contains(k as u16) {
                                    let q = choose|q: int| 0 <= q < cur.len() && cur[q] == k as u16;
                                    assert(next[q] == k as u16);
                                }
                            }
                        }
                        assert forall|x: int, y: int| 0 <= x < y < next.len() implies #[trigger] next[x] != #[trigger] next[y] by {
                            if y == next.len() - 1 {
                                if next[x] == next[y] {
                                    assert(cur[x] == blk);
                                    assert(cur.contains(blk));
                                }
                            }
                        }
                    }
                } else {
                    assert(base + nonzero(bl@.subrange(0, j + 1)) =~= cur);
                }
                j = j + 1;
            }
            assert(bl@.subrange(0, bl@.len() as int) =~= bl@);
            assert(owned_upto(es, (i + 1) as nat) == base + nonzero(bl@));
        } else {
            assert(owned_upto(es, (i + 1) as nat) == owned_upto(es, i as nat));
        }
        i = i + 1;
    }
    assert(es.len() == dir_entries@.len());
    Ok(used_blocks)
}

/// If the pointers of entry `i` so far already break ownership, so do those
/// of the whole directory.
pub(crate) proof fn lemma_owned_extends(es: Seq<DirEntryView>, i: nat, bl: Seq<u16>, j: nat)
    requires
        i < es.len(),
        es[i as int].used(),
        bl == trim_zeros(es[i as int].blocks),
        j < bl.len(),
    ensures
        ({
            let cur = owned_upto(es, i) + nonzero(bl.subrange(0, j + 1 as int));
            &&& cur.len() <= owned_blocks(es).len()
            &&& forall|k: int| 0 <= k < cur.len() ==> #[trigger] owned_blocks(es)[k] == cur[k]
        }),
{
    lemma_nonzero_prefix(bl, j + 1);
    lemma_owned_prefix(es, i + 1, es.len());
    let cur = owned_upto(es, i) + nonzero(bl.subrange(0, j + 1 as int));
    let full = owned_upto(es, i + 1);
    assert(full == owned_upto(es, i) + nonzero(bl));
    assert forall|k: int| 0 <= k < cur.len() implies #[trigger] full[k] == cur[k] by {}
}

pub(crate) proof fn lemma_nonzero_prefix(s: Seq<u16>, n: nat)
    requires
        n <= s.len(),
    ensures
        nonzero(s.subrange(0, n as int)).len() <= nonzero(s).len(),
        forall|k: int|
            0 <= k < nonzero(s.subrange(0, n as int)).len() ==> #[trigger] nonzero(s)[k] == nonzero(
                s.subrange(0, n as int),
            )[k],
    decreases s.len(),
{
    if n < s.len() {
        assert(s.drop_last().subrange(0, n as int) =~= s.subrange(0, n as int));
        lemma_nonzero_prefix(s.drop_last(), n);
    } else {
        assert(s.subrange(0, n as int) =~= s);
    }
}

pub(crate) proof fn lemma_nonzero_contains(s: Seq<u16>, b: u16)
    requires
        b != 0,
        s.contains(b),
    ensures
        nonzero(s).contains(b),
    decreases s.len(),
{
    if s.last() == b {
        assert(nonzero(s).last() == b);
    } else {
        let k = choose|k: int| 0 <= k < s.len() && s[k] == b;
        assert(s.drop_last()[k] == b);
        lemma_nonzero_contains(s.drop_last(), b);
        let m = choose|m: int| 0 <= m < nonzero(s.drop_last()).len() && nonzero(s.drop_last())[m] == b;
        assert(nonzero(s)[m] == b);
    }
}

/// Where the pointers of used entry `i` sit among all owned pointers.
pub(crate) proof fn lemma_owned_segment(es: Seq<DirEntryView>, i: int)
    requires
        0 <= i < es.len(),
        es[i].used(),
    ensures
        owned_upto(es, (i + 1) as nat).len() <= owned_blocks(es).len(),
        forall|k: int|
            0 <= k < nonzero(trim_zeros(es[i].blocks)).len() ==> owned_blocks(es)[owned_upto(es, i as nat).len() + k]
                == #[trigger] nonzero(trim_zeros(es[i].blocks))[k],
{
    lemma_owned_prefix(es, (i + 1) as nat, es.len());
    assert forall|k: int| 0 <= k < nonzero(trim_zeros(es[i].blocks)).len() implies owned_blocks(es)[owned_upto(es, i as nat).len() + k]
        == #[trigger] nonzero(trim_zeros(es[i].blocks))[k] by {
        assert(owned_upto(es, (i + 1) as nat)[owned_upto(es, i as nat).len() + k] == nonzero(trim_zeros(es[i].blocks))[k]);
    }
}

/// Two distinct used entries that both point to the same non-zero block make
/// the directory inconsistent: opening it fails.
pub proof fn lemma_shared_block_rejected(es: Seq<DirEntryView>, num_blocks: int, i: int, j: int, b: u16)
    requires
        0 <= i < es.len(),
        0 <= j < es.len(),
        i != j,
        es[i].used(),
        es[j].used(),
        b != 0,
        trim_zeros(es[i].blocks).contains(b),
        trim_zeros(es[j].blocks).contains(b),
    ensures
        !ownership_ok(es, num_blocks),
{
    let (a, c) = if i < j { (i, j) } else { (j, i) };
    lemma_nonzero_contains(trim_zeros(es[a].blocks), b);
    lemma_nonzero_contains(trim_zeros(es[c].blocks), b);
    let na = nonzero(trim_zeros(es[a].blocks));
    let nc = nonzero(trim_zeros(es[c].blocks));
    let ka = choose|k: int| 0 <= k < na.len() && na[k] == b;
    let kc = choose|k: int| 0 <= k < nc.len() && nc[k] == b;
    lemma_owned_segment(es, a);
    lemma_owned_segment(es, c);
    lemma_owned_prefix(es, (a + 1) as nat, c as nat);
    let pa = owned_upto(es, a as nat).len() + ka;
    let pc = owned_upto(es, c as nat).len() + kc;
    assert(owned_blocks(es)[pa] == na[ka]);
    assert(owned_blocks(es)[pc] == nc[kc]);
    assert(pa < pc);
}

} // verus!
