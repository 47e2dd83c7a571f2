use vstd::prelude::*;

verus! {

/// Everything that can go wrong while decoding, reading or writing an image.
#[derive(Debug, Clone, Copy, PartialEq, Eq)]
pub enum Error {
    /// A user number above 15 (or the deleted-slot marker) where a file owner is expected.
    InvalidUser { user: u8 },
    /// A file name that is not of the 8.3 shape (one dot, at most 8 + 3 ASCII bytes).
    InvalidFilename,
    /// Name or extension bytes outside the legal character set.
    InvalidName,
    /// A used directory entry whose block list has a non-zero pointer after a zero one.
    BlockListHole { extent: u16 },
    /// The image ends before a structure that it declares.
    Truncated,
    /// A header or a track record without its signature.
    BadMagic,
    /// A track record whose length differs from the header's size table.
    TrackSize { track: usize },
    /// A track record that is not the one expected at its position.
    TrackOrder { track: usize },
    /// A sector whose size differs from its track's sector size.
    VariableSectorSize { track: usize },
    /// Two sectors of one track with the same id.
    DuplicateSectorId { track: usize, sector_id: u8 },
    /// A head (side) number beyond the image's sides.
    InvalidHead { head: u8 },
    /// A cylinder number beyond the image's cylinders.
    InvalidCylinder { cylinder: u8 },
    /// No sector with this id on the addressed track.
    SectorNotFound { sector: u8 },
    /// More bytes than the addressed sector holds.
    SectorOverflow { sector: u8 },
    /// Filesystem parameters that this image cannot be read with.
    InvalidParams,
    /// An allocation block whose sectors are not all present with the
    /// configured sector size.
    UnreadableBlock { block: u16 },
    /// A file whose size is more than its blocks hold.
    SizeMismatch,
    /// A block pointer beyond the last block of the filesystem.
    BlockOutOfRange { block: u16 },
    /// A block owned by more than one extent.
    DuplicateBlock { block: u16 },
    /// Extent numbers of a file that are not 0, 1, ..., n-1 (gap or duplicate).
    ExtentIndex { expected: usize },
    /// A non-final extent that is not full.
    ShortExtent { index: usize },
    /// Fewer free blocks than a write needs.
    NotEnoughBlocks { available: usize, required: usize },
    /// Fewer free directory slots than a write needs.
    NotEnoughDirEntries { available: usize, required: usize },
    /// A tape block that does not start with the header marker.
    InvalidHeaderMarker,
    /// A tape header whose checksum does not match.
    HeaderChecksum,
    /// A file type byte other than 0 to 3.
    InvalidFileType { value: u8 },
    /// A tape data block without the data marker, or too short for its flag
    /// and checksum.
    InvalidDataMarker,
    /// A tape data block whose checksum does not match.
    DataChecksum,
    /// A user number that is not a number of at most 15.
    InvalidOwner,
}

} // verus!
