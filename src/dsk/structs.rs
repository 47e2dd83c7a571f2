//! The records of the container format and their byte encodings.
//!
//! All numbers are little-endian. Sizes are stored in units of 256 bytes.
use vstd::prelude::*;

use crate::bytes::{append_bytes, copy_range, has_prefix_at};
use crate::error::Error;

verus! {

/// "EXTENDED CPC DSK File\r\nDisk-Info\r\n"
pub open spec fn disk_magic() -> Seq<u8> {
    seq![
        0x45u8, 0x58, 0x54, 0x45, 0x4E, 0x44, 0x45, 0x44, 0x20, 0x43, 0x50, 0x43, 0x20, 0x44, 0x53,
        0x4B, 0x20, 0x46, 0x69, 0x6C, 0x65, 0x0D, 0x0A, 0x44, 0x69, 0x73, 0x6B, 0x2D, 0x49, 0x6E,
        0x66, 0x6F, 0x0D, 0x0A,
    ]
}

/// "Track-Info\r\n"
pub open spec fn track_magic() -> Seq<u8> {
    seq![0x54u8, 0x72, 0x61, 0x63, 0x6B, 0x2D, 0x49, 0x6E, 0x66, 0x6F, 0x0D, 0x0A]
}

fn disk_magic_bytes() -> (r: Vec<u8>)
    ensures
        r@ == disk_magic(),
{
    let r = vec![
        0x45u8, 0x58, 0x54, 0x45, 0x4E, 0x44, 0x45, 0x44, 0x20, 0x43, 0x50, 0x43, 0x20, 0x44, 0x53,
        0x4B, 0x20, 0x46, 0x69, 0x6C, 0x65, 0x0D, 0x0A, 0x44, 0x69, 0x73, 0x6B, 0x2D, 0x49, 0x6E,
        0x66, 0x6F, 0x0D, 0x0A,
    ];
    assert(r@ =~= disk_magic());
    r
}

fn track_magic_bytes() -> (r: Vec<u8>)
    ensures
        r@ == track_magic(),
{
    let r = vec![0x54u8, 0x72, 0x61, 0x63, 0x6B, 0x2D, 0x49, 0x6E, 0x66, 0x6F, 0x0D, 0x0A];
    assert(r@ =~= track_magic());
    r
}

/// Bytes of padding that bring a structure of `n` bytes to a multiple of 256.
pub open spec fn pad_len(n: int) -> int {
    (256 - n % 256) % 256
}

fn padding_for(n: usize) -> (r: usize)
    ensures
        r == pad_len(n as int),
{
    (256 - n % 256) % 256
}

/// Length of the fixed part of the file header, before the track size table.
pub const HEADER_FIXED_LEN: usize = 52;

/// Length of the fixed part of a track record, before the sector descriptors.
pub const TRACK_FIXED_LEN: usize = 24;

/// Length of one sector descriptor.
pub const SECTOR_INFO_LEN: usize = 8;

/// Length of the file header that `d` starts with: fixed part, size table
/// and padding.
pub open spec fn header_len(d: Seq<u8>) -> int {
    HEADER_FIXED_LEN + d[48] * d[49] + pad_len(HEADER_FIXED_LEN + d[48] * d[49])
}

/// `d` starts with a whole file header.
pub open spec fn header_ok(d: Seq<u8>) -> bool {
    &&& d.len() >= 34
    &&& d.subrange(0, 34) == disk_magic()
    &&& d.len() >= HEADER_FIXED_LEN
    &&& d.len() >= header_len(d)
}

/// Length of the record header of the track record at `d[pos..]`.
pub open spec fn track_header_len(d: Seq<u8>, pos: int) -> int {
    TRACK_FIXED_LEN + 8 * d[pos + 21] + pad_len(TRACK_FIXED_LEN + 8 * d[pos + 21])
}

/// `d[pos..]` starts with a whole track record header.
pub open spec fn track_header_ok(d: Seq<u8>, pos: int) -> bool {
    &&& pos + 12 <= d.len()
    &&& d.subrange(pos, pos + 12) == track_magic()
    &&& d.len() - pos >= TRACK_FIXED_LEN
    &&& d.len() - pos >= track_header_len(d, pos)
}

/// The file header: geometry and the size of each track record.
#[derive(Debug, Clone)]
pub struct DskFileHeader {
    /// Name of the program that wrote the file (14 bytes, zero-padded).
    pub name_of_creator: Vec<u8>,
    pub num_cylinders: u8,
    pub num_sides: u8,
    /// Two reserved bytes.
    pub unused: Vec<u8>,
    /// Length of each track record, in 256-byte units, cylinder by cylinder
    /// and side by side.
    pub track_sizes: Vec<u8>,
    /// The bytes that pad the header to a multiple of 256, kept as read.
    pub padding: Vec<u8>,
}

impl DskFileHeader {
    pub open spec fn spec_bytes(&self) -> Seq<u8> {
        disk_magic() + self.name_of_creator@ + seq![self.num_cylinders, self.num_sides]
            + self.unused@ + self.track_sizes@ + self.padding@
    }

    pub open spec fn wf(&self) -> bool {
        &&& self.name_of_creator@.len() == 14
        &&& self.unused@.len() == 2
        &&& self.track_sizes@.len() == self.num_cylinders * self.num_sides
        &&& self.padding@.len() == pad_len(HEADER_FIXED_LEN + self.track_sizes@.len())
    }

    /// Decodes the file header at the start of `data`; returns it and the
    /// offset of the first track record.
    pub fn parse(data: &[u8]) -> (r: Result<(DskFileHeader, usize), Error>)
        ensures
            match r {
                Ok((h, end)) => {
                    &&& h.wf()
                    &&& end <= data@.len()
                    &&& data@.subrange(0, end as int) == h.spec_bytes()
                },
                Err(e) => e == Error::BadMagic || e == Error::Truncated,
            },
            !(data@.len() >= 34 && data@.subrange(0, 34) == disk_magic()) ==> r == Err::<
                (DskFileHeader, usize),
                Error,
            >(Error::BadMagic),
            r is Ok <==> header_ok(data@),
            r matches Ok((h, end)) ==> end == header_len(data@) && h.num_cylinders == data@[48]
                && h.num_sides == data@[49] && h.track_sizes@ == data@.subrange(52, 52 + data@[48] * data@[49]),
    {
        let magic = disk_magic_bytes();
        if !has_prefix_at(data, 0, magic.as_slice()) {
            return Err(Error::BadMagic);
        }
        if data.len() < HEADER_FIXED_LEN {
            return Err(Error::Truncated);
        }
        let name_of_creator = copy_range(data, 34, 48);
        let num_cylinders = data[48];
        let num_sides = data[49];
        let unused = copy_range(data, 50, 52);
        assert(num_cylinders * num_sides <= 255 * 255) by (nonlinear_arith)
            requires
                num_cylinders <= 255,
                num_sides <= 255,
        ;
        let n: usize = num_cylinders as usize * num_sides as usize;
        if data.len() - HEADER_FIXED_LEN < n {
            return Err(Error::Truncated);
        }
        let track_sizes = copy_range(data, 52, 52 + n);
        let p = padding_for(52 + n);
        if data.len() - (52 + n) < p {
            return Err(Error::Truncated);
        }
        let padding = copy_range(data, 52 + n, 52 + n + p);
        let h = DskFileHeader { name_of_creator, num_cylinders, num_sides, unused, track_sizes, padding };
        let end = 52 + n + p;
        assert(data@.subrange(0, end as int) =~= h.spec_bytes());
        Ok((h, end))
    }

    pub fn to_bytes(&self) -> (r: Vec<u8>)
        ensures
            r@ == self.spec_bytes(),
    {
        let mut out = disk_magic_bytes();
        append_bytes(&mut out, self.name_of_creator.as_slice());
        out.push(self.num_cylinders);
        out.push(self.num_sides);
        append_bytes(&mut out, self.unused.as_slice());
        append_bytes(&mut out, self.track_sizes.as_slice());
        append_bytes(&mut out, self.padding.as_slice());
        assert(out@ =~= self.spec_bytes());
        out
    }
}

/// The descriptor of one sector of a track.
#[derive(Debug, Clone, Copy, PartialEq, Eq)]
pub struct SectorInfo {
    /// Cylinder number (the C parameter of the uPD765 commands).
    pub cylinder: u8,
    /// Side number (the H parameter).
    pub side: u8,
    /// Sector id (the R parameter).
    pub sector_id: u8,
    /// Sector size in bytes, stored in 256-byte units.
    pub sector_size: u16,
    /// uPD765 status register 1.
    pub fdc_st1: u8,
    /// uPD765 status register 2.
    pub fdc_st2: u8,
    /// Length of the data actually stored for the sector.
    pub actual_data_length: u16,
}

impl SectorInfo {
    pub open spec fn spec_bytes(&self) -> Seq<u8> {
        seq![
            self.cylinder,
            self.side,
            self.sector_id,
            (self.sector_size / 256) as u8,
            self.fdc_st1,
            self.fdc_st2,
            (self.actual_data_length % 256) as u8,
            (self.actual_data_length / 256) as u8,
        ]
    }

    /// Decodes the 8-byte descriptor at `data[pos..]`.
    pub fn read(data: &[u8], pos: usize) -> (r: SectorInfo)
        requires
            pos + SECTOR_INFO_LEN <= data@.len(),
        ensures
            r.spec_bytes() == data@.subrange(pos as int, pos + 8),
            r.sector_size == data@[pos + 3] * 256,
            r.sector_id == data@[pos + 2],
    {
        let r = SectorInfo {
            cylinder: data[pos],
            side: data[pos + 1],
            sector_id: data[pos + 2],
            sector_size: data[pos + 3] as u16 * 256,
            fdc_st1: data[pos + 4],
            fdc_st2: data[pos + 5],
            actual_data_length: data[pos + 6] as u16 + 256 * data[pos + 7] as u16,
        };
        assert(r.spec_bytes() =~= data@.subrange(pos as int, pos + 8));
        r
    }

    pub fn to_bytes(&self) -> (r: Vec<u8>)
        ensures
            r@ == self.spec_bytes(),
    {
        let mut out: Vec<u8> = Vec::new();
        out.push(self.cylinder);
        out.push(self.side);
        out.push(self.sector_id);
        out.push((self.sector_size / 256) as u8);
        out.push(self.fdc_st1);
        out.push(self.fdc_st2);
        out.push((self.actual_data_length % 256) as u8);
        out.push((self.actual_data_length / 256) as u8);
        assert(out@ =~= self.spec_bytes());
        out
    }
}

/// The encodings of a list of sector descriptors, one after the other.
pub open spec fn sectors_bytes(s: Seq<SectorInfo>) -> Seq<u8>
    decreases s.len(),
{
    if s.len() == 0 {
        Seq::empty()
    } else {
        sectors_bytes(s.drop_last()) + s.last().spec_bytes()
    }
}

/// The header of a track record.
#[derive(Debug, Clone)]
pub struct TrackInfo {
    /// Four bytes between the signature and the cylinder number.
    pub pad_before: Vec<u8>,
    pub cylinder_number: u8,
    pub side_number: u8,
    /// Two reserved bytes.
    pub unused1: Vec<u8>,
    /// Size of each sector in bytes, stored in 256-byte units.
    pub sector_size: u16,
    pub num_sectors: u8,
    /// GAP#3 length, as defined by the uPD765.
    pub gap3_length: u8,
    /// One reserved byte.
    pub unused2: u8,
    pub sectors: Vec<SectorInfo>,
    /// The bytes that pad the record header to a multiple of 256, kept as read.
    pub padding: Vec<u8>,
}

impl TrackInfo {
    pub open spec fn spec_bytes(&self) -> Seq<u8> {
        track_magic() + self.pad_before@ + seq![self.cylinder_number, self.side_number]
            + self.unused1@ + seq![
            (self.sector_size / 256) as u8,
            self.num_sectors,
            self.gap3_length,
            self.unused2,
        ] + sectors_bytes(self.sectors@) + self.padding@
    }

    pub open spec fn wf(&self) -> bool {
        &&& self.pad_before@.len() == 4
        &&& self.unused1@.len() == 2
        &&& self.sector_size % 256 == 0
        &&& self.sectors@.len() == self.num_sectors
        &&& self.padding@.len() == pad_len(TRACK_FIXED_LEN + 8 * self.sectors@.len())
    }

    /// Decodes the record header at `data[pos..]`; returns it and the offset
    /// of the track's sector data.
    pub fn parse(data: &[u8], pos: usize) -> (r: Result<(TrackInfo, usize), Error>)
        requires
            pos <= data@.len(),
        ensures
            match r {
                Ok((t, end)) => {
                    &&& t.wf()
                    &&& pos < end <= data@.len()
                    &&& data@.subrange(pos as int, end as int) == t.spec_bytes()
                    &&& forall|i: int|
                        0 <= i < t.sectors@.len() ==> (#[trigger] t.sectors@[i]).sector_size % 256
                            == 0
                },
                Err(e) => e == Error::BadMagic || e == Error::Truncated,
            },
            r is Ok <==> track_header_ok(data@, pos as int),
            r matches Ok((t, end)) ==> {
                &&& end == pos + track_header_len(data@, pos as int)
                &&& t.cylinder_number == data@[pos + 16]
                &&& t.side_number == data@[pos + 17]
                &&& t.sector_size == data@[pos + 20] * 256
                &&& t.num_sectors == data@[pos + 21]
                &&& forall|k: int|
                    0 <= k < t.sectors@.len() ==> (#[trigger] t.sectors@[k]).sector_size == data@[pos + 24 + 8 * k + 3] * 256
                        && t.sectors@[k].sector_id == data@[pos + 24 + 8 * k + 2]
            },
    {
        let magic = track_magic_bytes();
        if !has_prefix_at(data, pos, magic.as_slice()) {
            return Err(Error::BadMagic);
        }
        if data.len() - pos < TRACK_FIXED_LEN {
            return Err(Error::Truncated);
        }
        let pad_before = copy_range(data, pos + 12, pos + 16);
        let cylinder_number = data[pos + 16];
        let side_number = data[pos + 17];
        let unused1 = copy_range(data, pos + 18, pos + 20);
        let sector_size = data[pos + 20] as u16 * 256;
        let num_sectors = data[pos + 21];
        let gap3_length = data[pos + 22];
        let unused2 = data[pos + 23];
        let table_len: usize = 8 * num_sectors as usize;
        if data.len() - pos - TRACK_FIXED_LEN < table_len {
            return Err(Error::Truncated);
        }
        let dl = data.len();
        let mut sectors: Vec<SectorInfo> = Vec::new();
        let mut i: usize = 0;
        while i < num_sectors as usize
            invariant
                dl == data@.len(),
                pos + TRACK_FIXED_LEN + table_len <= data@.len(),
                table_len == 8 * num_sectors,
                i <= num_sectors,
                sectors@.len() == i,
                sectors_bytes(sectors@) == data@.subrange(pos + 24, pos + 24 + 8 * i),
                forall|k: int| 0 <= k < i ==> (#[trigger] sectors@[k]).sector_size % 256 == 0,
                forall|k: int|
                    0 <= k < i ==> (#[trigger] sectors@[k]).sector_size == data@[pos + 24 + 8 * k + 3] * 256
                        && sectors@[k].sector_id == data@[pos + 24 + 8 * k + 2],
            decreases num_sectors - i,
        {
            let s = SectorInfo::read(data, pos + 24 + 8 * i);
            let ghost prev = sectors@;
            sectors.push(s);
            assert(sectors@.drop_last() =~= prev);
            assert(data@.subrange(pos + 24, pos + 24 + 8 * (i + 1)) =~= data@.subrange(
                pos + 24,
                pos + 24 + 8 * i,
            ) + data@.subrange(pos + 24 + 8 * i, pos + 24 + 8 * i + 8));
            i = i + 1;
        }
        let head_len = TRACK_FIXED_LEN + table_len;
        let p = padding_for(head_len);
        if data.len() - pos - head_len < p {
            return Err(Error::Truncated);
        }
        let padding = copy_range(data, pos + head_len, pos + head_len + p);
        let t = TrackInfo {
            pad_before,
            cylinder_number,
            side_number,
            unused1,
            sector_size,
            num_sectors,
            gap3_length,
            unused2,
            sectors,
            padding,
        };
        let end = pos + head_len + p;
        assert(data@.subrange(pos as int, end as int) =~= data@.subrange(pos as int, pos + 24)
            + data@.subrange(pos + 24, pos + head_len) + data@.subrange(
            pos + head_len,
            end as int,
        ));
        assert(data@.subrange(pos as int, pos + 24) =~= track_magic() + pad_before@ + seq![
            cylinder_number,
            side_number,
        ] + unused1@ + seq![(sector_size / 256) as u8, num_sectors, gap3_length, unused2]);
        assert(data@.subrange(pos as int, end as int) =~= t.spec_bytes());
        Ok((t, end))
    }

    pub fn to_bytes(&self) -> (r: Vec<u8>)
        ensures
            r@ == self.spec_bytes(),
    {
        let mut out = track_magic_bytes();
        append_bytes(&mut out, self.pad_before.as_slice());
        out.push(self.cylinder_number);
        out.push(self.side_number);
        append_bytes(&mut out, self.unused1.as_slice());
        out.push((self.sector_size / 256) as u8);
        out.push(self.num_sectors);
        out.push(self.gap3_length);
        out.push(self.unused2);
        let ghost fixed = out@;
        let mut i: usize = 0;
        while i < self.sectors.len()
            invariant
                i <= self.sectors@.len(),
                out@ == fixed + sectors_bytes(self.sectors@.subrange(0, i as int)),
            decreases self.sectors@.len() - i,
        {
            let b = self.sectors[i].to_bytes();
            append_bytes(&mut out, b.as_slice());
            assert(self.sectors@.subrange(0, i + 1).drop_last() =~= self.sectors@.subrange(
                0,
                i as int,
            ));
            i = i + 1;
        }
        assert(self.sectors@.subrange(0, self.sectors@.len() as int) =~= self.sectors@);
        append_bytes(&mut out, self.padding.as_slice());
        assert(out@ =~= self.spec_bytes());
        out
    }
}

} // verus!
