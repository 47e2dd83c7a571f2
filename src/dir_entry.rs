//! One 32-byte directory slot: one extent of a file.
use vstd::prelude::*;

use crate::error::Error;
use crate::file_id::{filename_bytes, spec_id_from_bytes, FileId, FileIdView, DELETED_USER};
use crate::text::{ascii_text, is_ascii_text, lossy_text};

verus! {

/// Block pointers in one directory entry (the 16-bit pointer layout).
pub const BLOCKS_PER_EXTENT: usize = 8;

/// Bytes in one record, the unit of the record count.
pub const RECORD_SIZE: usize = 128;

/// Bytes in one directory slot.
pub const DIR_ENTRY_SIZE: usize = 32;

/// A directory entry as stored in the CP/M directory. It holds 8 block
/// pointers of 16 bits each: the layout with 8-bit pointers is not handled.
#[derive(Debug, Clone, Copy)]
pub struct CpmDirEntry {
    pub file_id: FileId,
    /// Extent number, for files that span more than one entry.
    pub extent: u16,
    /// Size of this extent in 128-byte records.
    pub record_count: u8,
    /// Block pointers; zero marks an unused pointer.
    pub blocks: [u16; 8],
    pub read_only: bool,
    pub system_file: bool,
    pub archived: bool,
}

/// The mathematical content of a directory entry.
pub struct DirEntryView {
    pub file_id: FileIdView,
    pub extent: u16,
    pub record_count: u8,
    pub blocks: Seq<u16>,
    pub read_only: bool,
    pub system_file: bool,
    pub archived: bool,
}

impl View for CpmDirEntry {
    type V = DirEntryView;

    open spec fn view(&self) -> DirEntryView {
        DirEntryView {
            file_id: self.file_id@,
            extent: self.extent,
            record_count: self.record_count,
            blocks: self.blocks@,
            read_only: self.read_only,
            system_file: self.system_file,
            archived: self.archived,
        }
    }
}

pub open spec fn entry_result_view(r: Result<CpmDirEntry, Error>) -> Result<DirEntryView, Error> {
    match r {
        Ok(e) => Ok(e@),
        Err(e) => Err(e),
    }
}

/// A little-endian 16-bit value.
pub open spec fn le16(lo: u8, hi: u8) -> u16 {
    (lo as int + 256 * hi as int) as u16
}

/// The eight block pointers stored in bytes 16 to 31 of a slot.
pub open spec fn slot_blocks(b: Seq<u8>) -> Seq<u16> {
    Seq::new(8, |i: int| le16(b[16 + 2 * i], b[17 + 2 * i]))
}

/// No non-zero pointer follows a zero one.
pub open spec fn no_holes(s: Seq<u16>) -> bool {
    forall|i: int, j: int| 0 <= i < j < s.len() && #[trigger] s[i] == 0 ==> #[trigger] s[j] == 0
}

/// `s` without its trailing zero pointers.
pub open spec fn trim_zeros(s: Seq<u16>) -> Seq<u16>
    decreases s.len(),
{
    if s.len() > 0 && s.last() == 0 {
        trim_zeros(s.drop_last())
    } else {
        s
    }
}

/// What `CpmDirEntry::from_bytes` gives for the 32 bytes of a slot.
pub open spec fn spec_entry_from_bytes(b: Seq<u8>) -> Result<DirEntryView, Error> {
    match spec_id_from_bytes(b) {
        Err(e) => Err(e),
        Ok(id) => {
            let extent = (b[12] as int + 256 * b[14] as int) as u16;
            let blocks = slot_blocks(b);
            if id.user != DELETED_USER && !no_holes(blocks) {
                Err(Error::BlockListHole { extent })
            } else {
                Ok(
                    DirEntryView {
                        file_id: id,
                        extent,
                        record_count: b[15],
                        blocks,
                        read_only: b[9] >= 0x80,
                        system_file: b[10] >= 0x80,
                        archived: b[11] >= 0x80,
                    },
                )
            }
        },
    }
}

impl DirEntryView {
    pub open spec fn used(self) -> bool {
        self.file_id.user != DELETED_USER
    }

    /// Marked deleted, yet every pointer is zero or lies in `[lo, hi)`: more
    /// likely a deleted file than a slot filled by the formatter.
    pub open spec fn likely_deleted(self, lo: u16, hi: u16) -> bool {
        &&& self.file_id.user == DELETED_USER
        &&& forall|i: int|
            0 <= i < self.blocks.len() ==> #[trigger] self.blocks[i] == 0 || (lo <= self.blocks[i]
                < hi)
    }
}

proof fn lemma_trim_zeros_prefix(s: Seq<u16>, k: int)
    requires
        0 <= k <= s.len(),
        forall|i: int| k <= i < s.len() ==> s[i] == 0,
    ensures
        trim_zeros(s) == trim_zeros(s.subrange(0, k)),
    decreases s.len() - k,
{
    if k < s.len() {
        assert(s.drop_last() =~= s.subrange(0, s.len() - 1));
        lemma_trim_zeros_prefix(s.drop_last(), k);
        assert(s.drop_last().subrange(0, k) =~= s.subrange(0, k));
    } else {
        assert(s.subrange(0, k) =~= s);
    }
}

impl CpmDirEntry {
    /// Decodes one directory slot.
    ///
    /// The block list of a used entry must have no hole; a deleted entry is
    /// kept as it is, holes and all.
    pub fn from_bytes(data: &[u8; 32]) -> (r: Result<CpmDirEntry, Error>)
        ensures
            entry_result_view(r) == spec_entry_from_bytes(data@),
    {
        let mut id_bytes: [u8; 12] = [0u8; 12];
        let mut i: usize = 0;
        while i < 12
            invariant
                i <= 12,
                forall|j: int| 0 <= j < i ==> id_bytes@[j] == data@[j],
            decreases 12 - i,
        {
            id_bytes[i] = data[i];
            i = i + 1;
        }
        assert(spec_id_from_bytes(id_bytes@) == spec_id_from_bytes(data@)) by {
            assert(id_bytes@.subrange(1, 9) =~= data@.subrange(1, 9));
            assert(id_bytes@.subrange(9, 12) =~= data@.subrange(9, 12));
        }
        let file_id = match FileId::from_bytes(&id_bytes) {
            Ok(id) => id,
            Err(e) => return Err(e),
        };
        let extent: u16 = data[12] as u16 + 256 * data[14] as u16;
        let record_count = data[15];
        let mut blocks: [u16; 8] = [0u16; 8];
        let mut i: usize = 0;
        while i < BLOCKS_PER_EXTENT
            invariant
                i <= 8,
                forall|j: int| 0 <= j < i ==> blocks@[j] == slot_blocks(data@)[j],
            decreases 8 - i,
        {
            blocks[i] = data[16 + 2 * i] as u16 + 256 * data[17 + 2 * i] as u16;
            i = i + 1;
        }
        assert(blocks@ =~= slot_blocks(data@));
        if file_id.user != DELETED_USER {
            if !Self::has_only_trailing_zeros(&blocks) {
                return Err(Error::BlockListHole { extent });
            }
        }
        Ok(
            CpmDirEntry {
                file_id,
                extent,
                record_count,
                blocks,
                read_only: data[9] >= 0x80,
                system_file: data[10] >= 0x80,
                archived: data[11] >= 0x80,
            },
        )
    }

    /// A fresh, used entry for writing; unused pointers are zero.
    pub fn new(file_id: FileId, extent: u16, record_count: u8, blocks: &[u16]) -> (r: CpmDirEntry)
        requires
            blocks@.len() <= BLOCKS_PER_EXTENT,
        ensures
            r.file_id == file_id,
            r.extent == extent,
            r.record_count == record_count,
            r@.blocks == blocks@ + Seq::new((8 - blocks@.len()) as nat, |i: int| 0u16),
            !r.read_only && !r.system_file && !r.archived,
    {
        let mut blocks_array: [u16; 8] = [0u16; 8];
        let mut i: usize = 0;
        while i < blocks.len()
            invariant
                blocks@.len() <= 8,
                i <= blocks@.len(),
                forall|j: int| 0 <= j < i ==> blocks_array@[j] == blocks@[j],
                forall|j: int| i <= j < 8 ==> blocks_array@[j] == 0,
            decreases blocks@.len() - i,
        {
            blocks_array[i] = blocks[i];
            i = i + 1;
        }
        assert(blocks_array@ =~= blocks@ + Seq::new((8 - blocks@.len()) as nat, |i: int| 0u16));
        CpmDirEntry {
            file_id,
            extent,
            record_count,
            blocks: blocks_array,
            read_only: false,
            system_file: false,
            archived: false,
        }
    }

    fn has_only_trailing_zeros(s: &[u16]) -> (r: bool)
        ensures
            r == no_holes(s@),
    {
        let mut i: usize = 0;
        while i < s.len() && s[i] != 0
            invariant
                i <= s@.len(),
                forall|j: int| 0 <= j < i ==> s@[j] != 0,
            decreases s@.len() - i,
        {
            i = i + 1;
        }
        let mut j: usize = i;
        while j < s.len()
            invariant
                i <= j <= s@.len(),
                forall|k: int| 0 <= k < i ==> s@[k] != 0,
                i < s@.len() ==> s@[i as int] == 0,
                forall|k: int| i <= k < j ==> s@[k] == 0,
            decreases s@.len() - j,
        {
            if s[j] != 0 {
                return false;
            }
            j = j + 1;
        }
        true
    }

    /// Bytes covered by this extent: its record count times 128.
    pub fn extent_size(&self) -> (r: usize)
        ensures
            r == self.record_count as int * 128,
    {
        self.record_count as usize * RECORD_SIZE
    }

    pub fn file_name(&self) -> (r: String)
        ensures
            r@ == lossy_text(filename_bytes(self.file_id@)),
            is_ascii_text(filename_bytes(self.file_id@)) ==> r@ == ascii_text(
                filename_bytes(self.file_id@),
            ),
    {
        self.file_id.filename()
    }

    pub fn used(&self) -> (r: bool)
        ensures
            r == self@.used(),
    {
        self.file_id.user != DELETED_USER
    }

    /// The user owning the file, or `None` for a deleted entry.
    pub fn owner(&self) -> (r: Option<u8>)
        ensures
            r == (if self@.used() {
                Some(self.file_id.user)
            } else {
                None
            }),
    {
        if self.used() {
            Some(self.file_id.user)
        } else {
            None
        }
    }

    /// A deleted entry whose pointers are all zero or in `valid_block_range`.
    ///
    /// This tells deleted files apart from slots that were never used (those
    /// hold the formatter's 0xE5 filler, whose pointers are out of range). An
    /// entry whose residual pointers happen to fall in range counts as deleted.
    pub fn likely_deleted(&self, valid_block_range: &std::ops::Range<u16>) -> (r: bool)
        ensures
            r == self@.likely_deleted(valid_block_range.start, valid_block_range.end),
    {
        if self.file_id.user != DELETED_USER {
            return false;
        }
        let mut i: usize = 0;
        while i < BLOCKS_PER_EXTENT
            invariant
                i <= 8,
                forall|j: int|
                    0 <= j < i ==> #[trigger] self.blocks@[j] == 0 || (valid_block_range.start
                        <= self.blocks@[j] < valid_block_range.end),
            decreases 8 - i,
        {
            let b = self.blocks[i];
            if b != 0 && (b < valid_block_range.start || b >= valid_block_range.end) {
                assert(self@.blocks[i as int] == b);
                return false;
            }
            i = i + 1;
        }
        true
    }

    /// The pointers in use: the block list without its trailing zeros.
    pub fn blocks(&self) -> (r: Vec<u16>)
        ensures
            r@ == trim_zeros(self.blocks@),
    {
        let mut k: usize = BLOCKS_PER_EXTENT;
        while k > 0 && self.blocks[k - 1] == 0
            invariant
                k <= 8,
                forall|i: int| k <= i < 8 ==> self.blocks@[i] == 0,
            decreases k,
        {
            k = k - 1;
        }
        proof {
            lemma_trim_zeros_prefix(self.blocks@, k as int);
            let p = self.blocks@.subrange(0, k as int);
            assert(p.len() == 0 || p.last() != 0);
        }
        let mut out: Vec<u16> = Vec::new();
        let mut i: usize = 0;
        while i < k
            invariant
                k <= 8,
                i <= k,
                out@ == self.blocks@.subrange(0, i as int),
            decreases k - i,
        {
            out.push(self.blocks[i]);
            assert(out@ =~= self.blocks@.subrange(0, i + 1));
            i = i + 1;
        }
        out
    }
}

} // verus!
