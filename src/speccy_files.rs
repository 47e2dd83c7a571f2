//! ZX Spectrum files: the 17-byte header, the four kinds of files, and the
//! tape container (.tap) that carries them.
use vstd::prelude::*;

use crate::bytes::{append_bytes, copy_range};
use crate::error::Error;
use crate::file_id::{trim_spaces, SPACE};
use crate::text::{lossy_text, text_from_bytes};

verus! {

/// Length of a file header.
pub const HEADER_LEN: usize = 17;

/// Type of a ZX Spectrum file.
#[derive(Debug, Clone, Copy, PartialEq, Eq, Structural)]
pub enum SpeccyFileType {
    /// Program in BASIC
    Program,
    /// Array of numbers
    NumArray,
    /// Array of strings
    ChrArray,
    /// Raw memory content
    Code,
}

pub open spec fn spec_file_type(b: u8) -> Option<SpeccyFileType> {
    if b == 0 {
        Some(SpeccyFileType::Program)
    } else if b == 1 {
        Some(SpeccyFileType::NumArray)
    } else if b == 2 {
        Some(SpeccyFileType::ChrArray)
    } else if b == 3 {
        Some(SpeccyFileType::Code)
    } else {
        None
    }
}

pub open spec fn type_byte(t: SpeccyFileType) -> u8 {
    match t {
        SpeccyFileType::Program => 0,
        SpeccyFileType::NumArray => 1,
        SpeccyFileType::ChrArray => 2,
        SpeccyFileType::Code => 3,
    }
}

impl SpeccyFileType {
    /// The 3-character extension that the Junior filesystem uses for the type.
    pub fn extension(&self) -> (r: &'static str)
        ensures
            r@ == (match self {
                SpeccyFileType::Program => "prg"@,
                SpeccyFileType::NumArray => "arr"@,
                SpeccyFileType::ChrArray => "str"@,
                SpeccyFileType::Code => "cod"@,
            }),
    {
        match self {
            SpeccyFileType::Program => "prg",
            SpeccyFileType::NumArray => "arr",
            SpeccyFileType::ChrArray => "str",
            SpeccyFileType::Code => "cod",
        }
    }

    /// A description of the type for people.
    pub fn description(&self) -> (r: &'static str)
        ensures
            r@ == (match self {
                SpeccyFileType::Program => "BASIC Program"@,
                SpeccyFileType::NumArray => "Number Array"@,
                SpeccyFileType::ChrArray => "String Array"@,
                SpeccyFileType::Code => "Code/bytes"@,
            }),
    {
        match self {
            SpeccyFileType::Program => "BASIC Program",
            SpeccyFileType::NumArray => "Number Array",
            SpeccyFileType::ChrArray => "String Array",
            SpeccyFileType::Code => "Code/bytes",
        }
    }
}

/// The header of a ZX Spectrum file (little-endian, 17 bytes).
#[derive(Debug, Clone, Copy)]
pub struct SpeccyFileHeader {
    pub file_type: SpeccyFileType,
    /// Name, padded with spaces.
    pub name: [u8; 10],
    /// Length of the data.
    pub length: u16,
    /// Autostart line of a program, load address of code.
    pub param1: u16,
    /// Start of the variables of a program, relative to its start.
    pub param2: u16,
}

pub open spec fn le16_bytes(v: u16) -> Seq<u8> {
    seq![(v % 256) as u8, (v / 256) as u8]
}

impl SpeccyFileHeader {
    pub open spec fn spec_bytes(&self) -> Seq<u8> {
        seq![type_byte(self.file_type)] + self.name@ + le16_bytes(self.length) + le16_bytes(
            self.param1,
        ) + le16_bytes(self.param2)
    }

    /// Decodes a header from the first 17 bytes of `bytes`.
    pub fn from_bytes(bytes: &[u8]) -> (r: Result<SpeccyFileHeader, Error>)
        ensures
            bytes@.len() < 17 ==> r == Err::<SpeccyFileHeader, Error>(Error::Truncated),
            bytes@.len() >= 17 && spec_file_type(bytes@[0]) is None ==> r == Err::<
                SpeccyFileHeader,
                Error,
            >(Error::InvalidFileType { value: bytes@[0] }),
            bytes@.len() >= 17 && spec_file_type(bytes@[0]) is Some ==> (r matches Ok(h)
                && h.spec_bytes() == bytes@.subrange(0, 17)),
    {
        if bytes.len() < HEADER_LEN {
            return Err(Error::Truncated);
        }
        let file_type = if bytes[0] == 0 {
            SpeccyFileType::Program
        } else if bytes[0] == 1 {
            SpeccyFileType::NumArray
        } else if bytes[0] == 2 {
            SpeccyFileType::ChrArray
        } else if bytes[0] == 3 {
            SpeccyFileType::Code
        } else {
            return Err(Error::InvalidFileType { value: bytes[0] });
        };
        let mut name: [u8; 10] = [SPACE; 10];
        let mut i: usize = 0;
        while i < 10
            invariant
                bytes@.len() >= 17,
                i <= 10,
                forall|j: int| 0 <= j < i ==> name@[j] == bytes@[1 + j],
            decreases 10 - i,
        {
            name[i] = bytes[1 + i];
            i = i + 1;
        }
        let h = SpeccyFileHeader {
            file_type,
            name,
            length: bytes[11] as u16 + 256 * bytes[12] as u16,
            param1: bytes[13] as u16 + 256 * bytes[14] as u16,
            param2: bytes[15] as u16 + 256 * bytes[16] as u16,
        };
        assert(h.spec_bytes() =~= bytes@.subrange(0, 17));
        Ok(h)
    }

    pub fn to_bytes(&self) -> (r: Vec<u8>)
        ensures
            r@ == self.spec_bytes(),
    {
        let mut out: Vec<u8> = Vec::new();
        out.push(
            match self.file_type {
                SpeccyFileType::Program => 0,
                SpeccyFileType::NumArray => 1,
                SpeccyFileType::ChrArray => 2,
                SpeccyFileType::Code => 3,
            },
        );
        append_bytes(&mut out, &self.name);
        out.push((self.length % 256) as u8);
        out.push((self.length / 256) as u8);
        out.push((self.param1 % 256) as u8);
        out.push((self.param1 / 256) as u8);
        out.push((self.param2 % 256) as u8);
        out.push((self.param2 / 256) as u8);
        assert(out@ =~= self.spec_bytes());
        out
    }

    /// The name without its trailing spaces.
    pub fn name(&self) -> (r: &[u8])
        ensures
            r@ == trim_spaces(self.name@),
    {
        let mut k: usize = 10;
        assert(self.name@.subrange(0, 10) =~= self.name@);
        while k > 0 && self.name[k - 1] == SPACE
            invariant
                k <= 10,
                trim_spaces(self.name@) == trim_spaces(self.name@.subrange(0, k as int)),
            decreases k,
        {
            assert(self.name@.subrange(0, k as int).drop_last() =~= self.name@.subrange(0, k - 1));
            k = k - 1;
        }
        &self.name.as_slice()[0..k]
    }
}

/// A BASIC program.
pub struct SFProgram {
    header: SpeccyFileHeader,
    data: Vec<u8>,
}

/// An array of numbers.
pub struct SFNumArray {
    header: SpeccyFileHeader,
    data: Vec<u8>,
}

/// An array of strings.
pub struct SFStrArray {
    header: SpeccyFileHeader,
    data: Vec<u8>,
}

/// Raw memory content.
pub struct SFCode {
    header: SpeccyFileHeader,
    data: Vec<u8>,
}

/// A ZX Spectrum file: its header and its data, by kind.
pub enum SpeccyFile {
    Program(SFProgram),
    NumArray(SFNumArray),
    StrArray(SFStrArray),
    Code(SFCode),
}

impl SFProgram {
    pub closed spec fn spec_header(&self) -> SpeccyFileHeader {
        self.header
    }

    pub closed spec fn spec_data(&self) -> Seq<u8> {
        self.data@
    }

    fn from_header_and_data(header: SpeccyFileHeader, data: Vec<u8>) -> (r: Self)
        ensures
            r.header == header,
            r.data@ == data@,
    {
        SFProgram { header, data }
    }

    /// The line the program starts at when loaded, if it starts by itself
    /// (a line number below 16384).
    pub fn get_autostart_line(&self) -> (r: Option<u16>)
        ensures
            r == (if self.spec_header().param1 < 0x4000 {
                Some(self.spec_header().param1)
            } else {
                None
            }),
    {
        if self.header.param1 < 0x4000 {
            Some(self.header.param1)
        } else {
            None
        }
    }

    pub fn vars_offset(&self) -> (r: u16)
        ensures
            r == self.spec_header().param2,
    {
        self.header.param2
    }

    /// Makes the program not start by itself when loaded.
    pub fn disable_autorun(&mut self)
        ensures
            final(self).spec_header() == (SpeccyFileHeader { param1: 0x8000, ..old(self).spec_header() }),
            final(self).spec_data() == old(self).spec_data(),
    {
        self.header.param1 = 0x8000;
    }
}

impl SFNumArray {
    fn from_header_and_data(header: SpeccyFileHeader, data: Vec<u8>) -> (r: Self)
        ensures
            r.header == header,
            r.data@ == data@,
    {
        SFNumArray { header, data }
    }
}

impl SFStrArray {
    fn from_header_and_data(header: SpeccyFileHeader, data: Vec<u8>) -> (r: Self)
        ensures
            r.header == header,
            r.data@ == data@,
    {
        SFStrArray { header, data }
    }
}

impl SFCode {
    pub closed spec fn spec_header(&self) -> SpeccyFileHeader {
        self.header
    }
    fn from_header_and_data(header: SpeccyFileHeader, data: Vec<u8>) -> (r: Self)
        ensures
            r.header == header,
            r.data@ == data@,
    {
        SFCode { header, data }
    }

    pub fn load_address(&self) -> (r: u16)
        ensures
            r == self.spec_header().param1,
    {
        self.header.param1
    }
}

/// XOR of all bytes of `s`.
pub open spec fn xor_all(s: Seq<u8>) -> u8
    decreases s.len(),
{
    if s.len() == 0 {
        0
    } else {
        xor_all(s.drop_last()) ^ s.last()
    }
}

fn checksum(s: &[u8]) -> (r: u8)
    ensures
        r == xor_all(s@),
{
    let mut acc: u8 = 0;
    let mut i: usize = 0;
    while i < s.len()
        invariant
            i <= s@.len(),
            acc == xor_all(s@.subrange(0, i as int)),
        decreases s@.len() - i,
    {
        assert(s@.subrange(0, i + 1).drop_last() =~= s@.subrange(0, i as int));
        acc = acc ^ s[i];
        i = i + 1;
    }
    assert(s@.subrange(0, s@.len() as int) =~= s@);
    acc
}

/// Checks the tape record at `d[pos..]` (with `pos < d.len()`): the header
/// block, its checksum, the file type, the data block marker and length, and
/// the data checksum. Gives the length of the data, or the first failure.
pub open spec fn tap_check(d: Seq<u8>, pos: int) -> Result<int, Error> {
    let len = d.len() as int;
    if len - pos < 3 || d[pos] != 0x13 || d[pos + 1] != 0 || d[pos + 2] != 0 {
        Err(Error::InvalidHeaderMarker)
    } else if len - pos < 21 {
        Err(Error::Truncated)
    } else if xor_all(d.subrange(pos + 3, pos + 20)) != d[pos + 20] {
        Err(Error::HeaderChecksum)
    } else if spec_file_type(d[pos + 3]) is None {
        Err(Error::InvalidFileType { value: d[pos + 3] })
    } else if len - pos < 24 {
        Err(Error::Truncated)
    } else if d[pos + 23] != 0xFF {
        Err(Error::InvalidDataMarker)
    } else if d[pos + 21] + 256 * d[pos + 22] < 2 {
        Err(Error::InvalidDataMarker)
    } else {
        let n = d[pos + 21] + 256 * d[pos + 22] - 2;
        if len - pos - 24 < n + 1 {
            Err(Error::Truncated)
        } else if xor_all(d.subrange(pos + 24, pos + 24 + n)) ^ 0xFF != d[pos + 24 + n] {
            Err(Error::DataChecksum)
        } else {
            Ok(n)
        }
    }
}

/// The number of files on the tape from `pos` on, or the first failure.
pub open spec fn tap_count(d: Seq<u8>, pos: int) -> Result<nat, Error>
    decreases d.len() - pos,
{
    if pos < 0 || pos >= d.len() {
        Ok(0)
    } else {
        match tap_check(d, pos) {
            Err(e) => Err(e),
            Ok(n) => if pos + 25 + n <= d.len() {
                match tap_count(d, pos + 25 + n) {
                    Ok(k) => Ok(k + 1),
                    Err(e) => Err(e),
                }
            } else {
                Ok(0)
            },
        }
    }
}

impl SpeccyFile {
    pub closed spec fn spec_header(&self) -> SpeccyFileHeader {
        match self {
            SpeccyFile::Program(p) => p.header,
            SpeccyFile::NumArray(n) => n.header,
            SpeccyFile::StrArray(s) => s.header,
            SpeccyFile::Code(c) => c.header,
        }
    }

    pub closed spec fn spec_data(&self) -> Seq<u8> {
        match self {
            SpeccyFile::Program(p) => p.data@,
            SpeccyFile::NumArray(n) => n.data@,
            SpeccyFile::StrArray(s) => s.data@,
            SpeccyFile::Code(c) => c.data@,
        }
    }

    fn from_header_and_data(header: SpeccyFileHeader, data: Vec<u8>) -> (r: SpeccyFile)
        ensures
            r.spec_header() == header,
            r.spec_data() == data@,
            type_byte(header.file_type) == match r {
                SpeccyFile::Program(_) => 0u8,
                SpeccyFile::NumArray(_) => 1u8,
                SpeccyFile::StrArray(_) => 2u8,
                SpeccyFile::Code(_) => 3u8,
            },
    {
        match header.file_type {
            SpeccyFileType::Program => SpeccyFile::Program(SFProgram::from_header_and_data(header, data)),
            SpeccyFileType::NumArray => SpeccyFile::NumArray(SFNumArray::from_header_and_data(header, data)),
            SpeccyFileType::ChrArray => SpeccyFile::StrArray(SFStrArray::from_header_and_data(header, data)),
            SpeccyFileType::Code => SpeccyFile::Code(SFCode::from_header_and_data(header, data)),
        }
    }

    /// A file as stored on a Junior disk: a header, then the data. The data
    /// is every byte after the header (files on disk are padded to whole
    /// records, so there may be more than the header's length says).
    pub fn read(bytes: &[u8]) -> (r: Result<Self, Error>)
        ensures
            bytes@.len() < 17 ==> r == Err::<Self, Error>(Error::Truncated),
            bytes@.len() >= 17 && spec_file_type(bytes@[0]) is None ==> r == Err::<Self, Error>(
                Error::InvalidFileType { value: bytes@[0] },
            ),
            r matches Ok(f) ==> f.spec_header().spec_bytes() == bytes@.subrange(0, 17) && f.spec_data()
                == bytes@.subrange(17, bytes@.len() as int),
            bytes@.len() >= 17 && spec_file_type(bytes@[0]) is Some ==> r is Ok,
    {
        let header = match SpeccyFileHeader::from_bytes(bytes) {
            Ok(h) => h,
            Err(e) => return Err(e),
        };
        let data = copy_range(bytes, HEADER_LEN, bytes.len());
        Ok(Self::from_header_and_data(header, data))
    }

    /// Reads the file whose tape blocks start at `data[pos..]`: a header
    /// block (length 19, flag 0, 17 header bytes, checksum) then a data block
    /// (length, flag 0xFF, data, checksum). Gives `None` at the end of the
    /// tape, else the file and the position after it.
    pub fn read_from_tap(data: &[u8], pos: usize) -> (r: Result<Option<(Self, usize)>, Error>)
        requires
            pos <= data@.len(),
        ensures
            pos == data@.len() ==> r == Ok::<Option<(Self, usize)>, Error>(None),
            pos < data@.len() ==> match tap_check(data@, pos as int) {
                Err(e) => r == Err::<Option<(Self, usize)>, Error>(e),
                Ok(n) => r matches Ok(Some((_, end))) && end == pos + 25 + n,
            },
            pos < data@.len() ==> match r {
                Ok(None) => false,
                Ok(Some((f, end))) => {
                    let n = (end - pos - 25) as int;
                    &&& pos + 25 <= end <= data@.len()
                    &&& data@.subrange(pos as int, pos + 3) == seq![0x13u8, 0x00, 0x00]
                    &&& f.spec_header().spec_bytes() == data@.subrange(pos + 3, pos + 20)
                    &&& data@[pos + 20] == xor_all(data@.subrange(pos + 3, pos + 20))
                    &&& data@[pos + 23] == 0xFF
                    &&& data@[pos + 21] + 256 * data@[pos + 22] == n + 2
                    &&& f.spec_data() == data@.subrange(pos + 24, pos + 24 + n)
                    &&& data@[pos + 24 + n] == xor_all(f.spec_data()) ^ 0xFF
                },
                Err(_) => true,
            },
    {
        let len = data.len();
        if pos == len {
            return Ok(None);
        }
        if len - pos < 3 || data[pos] != 0x13 || data[pos + 1] != 0 || data[pos + 2] != 0 {
            return Err(Error::InvalidHeaderMarker);
        }
        if len - pos < 3 + HEADER_LEN + 1 {
            return Err(Error::Truncated);
        }
        let header_bytes = copy_range(data, pos + 3, pos + 20);
        if checksum(header_bytes.as_slice()) != data[pos + 20] {
            return Err(Error::HeaderChecksum);
        }
        let header = match SpeccyFileHeader::from_bytes(header_bytes.as_slice()) {
            Ok(h) => h,
            Err(e) => return Err(e),
        };
        if len - pos < 24 {
            return Err(Error::Truncated);
        }
        if data[pos + 23] != 0xFF {
            return Err(Error::InvalidDataMarker);
        }
        let size = data[pos + 21] as usize + 256 * data[pos + 22] as usize;
        // the size counts the flag and the checksum
        if size < 2 {
            return Err(Error::InvalidDataMarker);
        }
        let n = size - 2;
        if len - pos - 24 < n + 1 {
            return Err(Error::Truncated);
        }
        let body = copy_range(data, pos + 24, pos + 24 + n);
        // the checksum covers the flag byte too
        if checksum(body.as_slice()) ^ 0xFF != data[pos + 24 + n] {
            return Err(Error::DataChecksum);
        }
        let f = Self::from_header_and_data(header, body);
        assert(data@.subrange(pos as int, pos + 3) =~= seq![0x13u8, 0x00, 0x00]);
        Ok(Some((f, pos + 25 + n)))
    }

    /// Reads all files of a tape, one after the other.
    pub fn load_tap_file(data: &[u8]) -> (r: Result<Vec<Self>, Error>)
        ensures
            match tap_count(data@, 0) {
                Ok(k) => r matches Ok(v) && v@.len() == k,
                Err(e) => r == Err::<Vec<Self>, Error>(e),
            },
    {
        let mut files: Vec<Self> = Vec::new();
        let mut pos: usize = 0;
        while pos < data.len()
            invariant
                pos <= data@.len(),
                match tap_count(data@, 0) {
                    Ok(k) => tap_count(data@, pos as int) matches Ok(j) && k == files@.len() + j,
                    Err(e) => tap_count(data@, pos as int) == Err::<nat, Error>(e),
                },
            decreases data@.len() - pos,
        {
            match Self::read_from_tap(data, pos) {
                Ok(Some((f, end))) => {
                    files.push(f);
                    pos = end;
                },
                Ok(None) => {
                    return Ok(files);
                },
                Err(e) => return Err(e),
            }
        }
        Ok(files)
    }

    /// Appends the encoded header to `out`.
    pub fn write_header(&self, out: &mut Vec<u8>)
        ensures
            final(out)@ == old(out)@ + self.spec_header().spec_bytes(),
    {
        let h = self.header().to_bytes();
        append_bytes(out, h.as_slice());
    }

    /// Appends the data to `out`.
    pub fn write_raw_data(&self, out: &mut Vec<u8>)
        ensures
            final(out)@ == old(out)@ + self.spec_data(),
    {
        append_bytes(out, self.data());
    }

    /// The name, without its padding.
    pub fn name(&self) -> (r: String)
        ensures
            r@ == lossy_text(trim_spaces(self.spec_header().name@)),
    {
        let h = self.header();
        text_from_bytes(h.name())
    }

    pub fn file_type(&self) -> (r: SpeccyFileType)
        ensures
            r == self.spec_header().file_type,
    {
        self.header().file_type
    }

    /// Length of the data, as the header gives it.
    pub fn size(&self) -> (r: usize)
        ensures
            r == self.spec_header().length,
    {
        self.header().length as usize
    }

    fn header(&self) -> (r: &SpeccyFileHeader)
        ensures
            *r == self.spec_header(),
    {
        match self {
            SpeccyFile::Program(p) => &p.header,
            SpeccyFile::NumArray(n) => &n.header,
            SpeccyFile::StrArray(s) => &s.header,
            SpeccyFile::Code(c) => &c.header,
        }
    }

    fn data(&self) -> (r: &[u8])
        ensures
            r@ == self.spec_data(),
    {
        match self {
            SpeccyFile::Program(p) => p.data.as_slice(),
            SpeccyFile::NumArray(n) => n.data.as_slice(),
            SpeccyFile::StrArray(s) => s.data.as_slice(),
            SpeccyFile::Code(c) => c.data.as_slice(),
        }
    }
}

} // verus!
