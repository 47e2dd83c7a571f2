//! A whole disk image: header, tracks and sector data, addressed by CHS.
use vstd::prelude::*;

use super::structs::{
    header_len, header_ok, track_header_len, track_header_ok, DskFileHeader, SectorInfo, TrackInfo,
};
use crate::bytes::{append_bytes, copy_range};
use crate::error::Error;

verus! {

/// A cylinder/head/sector address.
#[derive(Debug, Clone, Copy, PartialEq, Eq, Structural)]
pub struct CHS {
    /// Cylinder number, from 0.
    pub cylinder: u8,
    /// Head (side) number, 0 or 1.
    pub head: u8,
    /// Sector id, from 1 as the disk controller numbers them.
    pub sector: u8,
}

/// A disk image held in memory; loaded whole and saved whole.
pub struct DskImage {
    header: DskFileHeader,
    tracks: Vec<DskImageTrack>,
    /// Bytes after the last track record, kept as read.
    trailing: Vec<u8>,
}

/// One track: its record header and the data of all its sectors, in the
/// order of the sector descriptors.
struct DskImageTrack {
    header: TrackInfo,
    sector_data: Vec<u8>,
}

/// Byte `j` of the `k`-th sector descriptor of the track record at `pos`.
pub open spec fn desc_byte(d: Seq<u8>, pos: int, k: int, j: int) -> u8 {
    d[pos + 24 + 8 * k + j]
}

/// Length of the sector data of the track record at `pos`.
pub open spec fn track_data_len(d: Seq<u8>, pos: int) -> int {
    d[pos + 20] * 256 * d[pos + 21]
}

/// Length of the whole track record at `pos`.
pub open spec fn track_len(d: Seq<u8>, pos: int) -> int {
    track_header_len(d, pos) + track_data_len(d, pos)
}

/// The track record at `d[pos..]` is whole, all its sectors have the
/// track's size, and their ids are distinct.
pub open spec fn track_ok(d: Seq<u8>, pos: int) -> bool {
    &&& track_header_ok(d, pos)
    &&& forall|k: int| 0 <= k < d[pos + 21] ==> #[trigger] desc_byte(d, pos, k, 3) == d[pos + 20]
    &&& forall|k1: int, k2: int|
        0 <= k1 < d[pos + 21] && 0 <= k2 < d[pos + 21] && k1 != k2 ==> #[trigger] desc_byte(d, pos, k1, 2)
            != #[trigger] desc_byte(d, pos, k2, 2)
    &&& d.len() - pos >= track_len(d, pos)
}

/// The track records from `pos` on, for positions `idx` to `n - 1`, are
/// well formed, as long as the size table says, and in (cylinder, side)
/// order.
pub open spec fn tracks_ok(d: Seq<u8>, pos: int, idx: int, n: int, sides: int) -> bool
    decreases n - idx,
{
    if idx < 0 || idx >= n {
        true
    } else {
        &&& track_ok(d, pos)
        &&& track_len(d, pos) == 256 * d[52 + idx]
        &&& d[pos + 16] == idx / sides
        &&& d[pos + 17] == idx % sides
        &&& tracks_ok(d, pos + track_len(d, pos), idx + 1, n, sides)
    }
}

/// `d` is a whole disk image: a header, then one well-formed track record
/// for each (cylinder, side), in order, each as long as the header says.
pub open spec fn image_ok(d: Seq<u8>) -> bool {
    header_ok(d) && tracks_ok(d, header_len(d), 0, d[48] * d[49], d[49] as int)
}

spec fn tracks_bytes(ts: Seq<DskImageTrack>) -> Seq<u8>
    decreases ts.len(),
{
    if ts.len() == 0 {
        Seq::empty()
    } else {
        tracks_bytes(ts.drop_last()) + ts.last().spec_bytes()
    }
}

proof fn lemma_track_index(c: int, h: int, c2: int, h2: int, sides: int)
    requires
        0 <= h < sides,
        0 <= h2 < sides,
        0 <= c,
        0 <= c2,
        c * sides + h == c2 * sides + h2,
    ensures
        c == c2 && h == h2,
{
    if c < c2 {
        assert(c * sides + sides <= c2 * sides) by (nonlinear_arith)
            requires
                c < c2,
                sides > 0,
        ;
    } else if c2 < c {
        assert(c2 * sides + sides <= c * sides) by (nonlinear_arith)
            requires
                c2 < c,
                sides > 0,
        ;
    }
}

proof fn lemma_track_in_range(c: int, h: int, cyls: int, sides: int)
    requires
        0 <= h < sides,
        0 <= c < cyls,
    ensures
        0 <= c * sides + h < cyls * sides,
        (c * sides + h) / sides == c,
        (c * sides + h) % sides == h,
{
    assert(c * sides + h < cyls * sides) by (nonlinear_arith)
        requires
            0 <= h < sides,
            0 <= c < cyls,
    ;
    assert(0 <= c * sides) by (nonlinear_arith)
        requires
            0 <= c,
            0 < sides,
    ;
    vstd::arithmetic::div_mod::lemma_fundamental_div_mod_converse(c * sides + h, sides, c, h);
}

proof fn lemma_sector_ranges_disjoint(k: int, k2: int, ss: int, j: int)
    requires
        0 <= k,
        0 <= k2,
        k != k2,
        0 <= ss,
        k2 * ss <= j < (k2 + 1) * ss,
    ensures
        j < k * ss || j >= (k + 1) * ss,
{
    if k < k2 {
        assert((k + 1) * ss <= k2 * ss) by (nonlinear_arith)
            requires
                k < k2,
                0 <= ss,
        ;
    } else {
        assert((k2 + 1) * ss <= k * ss) by (nonlinear_arith)
            requires
                k2 < k,
                0 <= ss,
        ;
    }
}

impl DskImageTrack {
    spec fn spec_bytes(&self) -> Seq<u8> {
        self.header.spec_bytes() + self.sector_data@
    }

    spec fn wf(&self) -> bool {
        &&& self.header.wf()
        &&& self.sector_data@.len() == self.header.sector_size * self.header.num_sectors
        &&& forall|i: int|
            0 <= i < self.header.sectors@.len() ==> (#[trigger] self.header.sectors@[i]).sector_size
                == self.header.sector_size
        &&& forall|i: int, j: int|
            0 <= i < self.header.sectors@.len() && 0 <= j < self.header.sectors@.len() && i != j
                ==> (#[trigger] self.header.sectors@[i]).sector_id
                != (#[trigger] self.header.sectors@[j]).sector_id
    }

    spec fn has_id(&self, id: int) -> bool {
        exists|i: int|
            0 <= i < self.header.sectors@.len() && (#[trigger] self.header.sectors@[i]).sector_id
                == id
    }

    /// Index of the sector with this id, or -1.
    spec fn sector_pos(&self, id: int) -> int {
        if self.has_id(id) {
            choose|i: int|
                0 <= i < self.header.sectors@.len() && (#[trigger] self.header.sectors@[i]).sector_id
                    == id
        } else {
            -1
        }
    }

    spec fn sector(&self, k: int) -> Seq<u8> {
        let ss = self.header.sector_size as int;
        self.sector_data@.subrange(k * ss, (k + 1) * ss)
    }

    proof fn lemma_sector_len(&self, k: int)
        requires
            self.wf(),
            0 <= k < self.header.sectors@.len(),
        ensures
            0 <= k * self.header.sector_size,
            (k + 1) * self.header.sector_size <= self.sector_data@.len(),
            (k + 1) * self.header.sector_size == k * self.header.sector_size
                + self.header.sector_size,
            self.sector(k).len() == self.header.sector_size,
    {
        let ss = self.header.sector_size as int;
        let n = self.header.num_sectors as int;
        assert((k + 1) * ss <= n * ss) by (nonlinear_arith)
            requires
                k + 1 <= n,
                0 <= ss,
        ;
        assert(0 <= k * ss) by (nonlinear_arith)
            requires
                0 <= k,
                0 <= ss,
        ;
        assert((k + 1) * ss == k * ss + ss) by (nonlinear_arith);
    }

    /// Decodes the track record at `data[pos..]`: header, then sector data.
    fn load(data: &[u8], pos: usize, track: usize) -> (r: Result<(DskImageTrack, usize), Error>)
        requires
            pos <= data@.len(),
        ensures
            match r {
                Ok((t, end)) => {
                    &&& t.wf()
                    &&& pos < end <= data@.len()
                    &&& data@.subrange(pos as int, end as int) == t.spec_bytes()
                },
                Err(_) => true,
            },
            r is Ok <==> track_ok(data@, pos as int),
            r matches Ok((t, end)) ==> end == pos + track_len(data@, pos as int)
                && t.header.cylinder_number == data@[pos + 16] && t.header.side_number == data@[pos + 17],
    {
        let (header, dpos) = match TrackInfo::parse(data, pos) {
            Ok(x) => x,
            Err(e) => return Err(e),
        };
        let n = header.sectors.len();
        let mut k: usize = 0;
        while k < n
            invariant
                n == header.sectors@.len(),
                n == data@[pos + 21],
                pos + 24 <= data@.len(),
                header.sector_size == data@[pos + 20] * 256,
                forall|q: int|
                    0 <= q < header.sectors@.len() ==> (#[trigger] header.sectors@[q]).sector_size == desc_byte(data@, pos as int, q, 3) * 256
                        && header.sectors@[q].sector_id == desc_byte(data@, pos as int, q, 2),
                forall|q: int| 0 <= q < k ==> #[trigger] desc_byte(data@, pos as int, q, 3) == data@[pos + 20],
                forall|q1: int, q2: int|
                    0 <= q1 < k && 0 <= q2 < k && q1 != q2 ==> #[trigger] desc_byte(data@, pos as int, q1, 2)
                        != #[trigger] desc_byte(data@, pos as int, q2, 2),
                k <= n,
                forall|i: int|
                    0 <= i < k ==> (#[trigger] header.sectors@[i]).sector_size == header.sector_size,
                forall|i: int, j: int|
                    0 <= i < k && 0 <= j < k && i != j ==> (#[trigger] header.sectors@[i]).sector_id
                        != (#[trigger] header.sectors@[j]).sector_id,
            decreases n - k,
        {
            let s = header.sectors[k];
            assert(s.sector_size == desc_byte(data@, pos as int, k as int, 3) * 256);
            if s.sector_size != header.sector_size {
                assert(desc_byte(data@, pos as int, k as int, 3) != data@[pos + 20]);
                return Err(Error::VariableSectorSize { track });
            }
            let mut j: usize = 0;
            while j < k
                invariant
                    n == header.sectors@.len(),
                    n == data@[pos + 21],
                    j <= k < n,
                    s == header.sectors@[k as int],
                    forall|q: int|
                        0 <= q < header.sectors@.len() ==> (#[trigger] header.sectors@[q]).sector_id == desc_byte(data@, pos as int, q, 2),
                    forall|i: int|
                        0 <= i < j ==> (#[trigger] header.sectors@[i]).sector_id != s.sector_id,
                decreases k - j,
            {
                if header.sectors[j].sector_id == s.sector_id {
                    assert(desc_byte(data@, pos as int, j as int, 2) == desc_byte(data@, pos as int, k as int, 2));
                    return Err(Error::DuplicateSectorId { track, sector_id: s.sector_id });
                }
                j = j + 1;
            }
            assert forall|q1: int, q2: int|
                0 <= q1 < k + 1 && 0 <= q2 < k + 1 && q1 != q2 implies #[trigger] desc_byte(data@, pos as int, q1, 2)
                != #[trigger] desc_byte(data@, pos as int, q2, 2) by {
                if q1 == k {
                    assert(header.sectors@[q2].sector_id != s.sector_id);
                } else if q2 == k {
                    assert(header.sectors@[q1].sector_id != s.sector_id);
                }
            }
            k = k + 1;
        }
        assert(header.sector_size * header.num_sectors <= 65535 * 255) by (nonlinear_arith)
            requires
                header.sector_size <= 65535,
                header.num_sectors <= 255,
        ;
        let size: usize = header.sector_size as usize * header.num_sectors as usize;
        assert(size == track_data_len(data@, pos as int)) by (nonlinear_arith)
            requires
                size == header.sector_size * header.num_sectors,
                header.sector_size == data@[pos + 20] * 256,
                header.num_sectors == data@[pos + 21],
        ;
        if data.len() - dpos < size {
            return Err(Error::Truncated);
        }
        let sector_data = copy_range(data, dpos, dpos + size);
        let t = DskImageTrack { header, sector_data };
        let end = dpos + size;
        assert(data@.subrange(pos as int, end as int) =~= data@.subrange(pos as int, dpos as int)
            + data@.subrange(dpos as int, end as int));
        Ok((t, end))
    }

    fn find_sector(&self, sector_id: u8) -> (r: Option<usize>)
        requires
            self.wf(),
        ensures
            match r {
                Some(k) => k == self.sector_pos(sector_id as int) && k < self.header.sectors@.len(),
                None => self.sector_pos(sector_id as int) == -1,
            },
    {
        let mut k: usize = 0;
        while k < self.header.sectors.len()
            invariant
                self.wf(),
                k <= self.header.sectors@.len(),
                forall|i: int| 0 <= i < k ==> (#[trigger] self.header.sectors@[i]).sector_id != sector_id,
            decreases self.header.sectors@.len() - k,
        {
            if self.header.sectors[k].sector_id == sector_id {
                assert(self.has_id(sector_id as int));
                let ghost c = self.sector_pos(sector_id as int);
                assert(self.header.sectors@[c].sector_id == sector_id);
                assert(self.header.sectors@[k as int].sector_id == sector_id);
                assert(c == k);
                return Some(k);
            }
            k = k + 1;
        }
        None
    }

    fn sector_as_slice(&self, sector_id: u8) -> (r: Option<&[u8]>)
        requires
            self.wf(),
        ensures
            match r {
                Some(s) => self.sector_pos(sector_id as int) >= 0 && s@ == self.sector(
                    self.sector_pos(sector_id as int),
                ),
                None => self.sector_pos(sector_id as int) == -1,
            },
    {
        match self.find_sector(sector_id) {
            Some(k) => {
                proof {
                    self.lemma_sector_len(k as int);
                }
                let total = self.sector_data.len();
                let ss = self.header.sector_size as usize;
                Some(&self.sector_data.as_slice()[k * ss..(k + 1) * ss])
            },
            None => None,
        }
    }

    /// Writes `data` over the start of the `k`-th sector.
    fn write_at(&mut self, k: usize, data: &[u8])
        requires
            old(self).wf(),
            k < old(self).header.sectors@.len(),
            data@.len() <= old(self).header.sector_size,
        ensures
            final(self).wf(),
            final(self).header == old(self).header,
            final(self).sector_data@.len() == old(self).sector_data@.len(),
            forall|j: int|
                0 <= j < old(self).sector_data@.len() && (j < k * old(self).header.sector_size
                    || j >= k * old(self).header.sector_size + data@.len())
                    ==> final(self).sector_data@[j] == old(self).sector_data@[j],
            forall|i: int|
                0 <= i < data@.len() ==> final(self).sector_data@[k * old(self).header.sector_size + i]
                    == data@[i],
    {
        proof {
            self.lemma_sector_len(k as int);
        }
        let total = self.sector_data.len();
        let base = k * self.header.sector_size as usize;
        let mut i: usize = 0;
        while i < data.len()
            invariant
                old(self).wf(),
                self.header == old(self).header,
                self.sector_data@.len() == old(self).sector_data@.len(),
                base == k * old(self).header.sector_size,
                base + data@.len() <= old(self).sector_data@.len(),
                total == self.sector_data@.len(),
                i <= data@.len(),
                forall|j: int|
                    0 <= j < old(self).sector_data@.len() && (j < base || j >= base + i)
                        ==> #[trigger] self.sector_data@[j] == old(self).sector_data@[j],
                forall|j: int| 0 <= j < i ==> self.sector_data@[base + j] == #[trigger] data@[j],
            decreases data@.len() - i,
        {
            self.sector_data.set(base + i, data[i]);
            i = i + 1;
        }
    }

    fn save(&self, out: &mut Vec<u8>)
        ensures
            final(out)@ == old(out)@ + self.spec_bytes(),
    {
        let h = self.header.to_bytes();
        append_bytes(out, h.as_slice());
        append_bytes(out, self.sector_data.as_slice());
        assert(final(out)@ =~= old(out)@ + self.spec_bytes());
    }
}

impl DskImage {
    pub closed spec fn spec_bytes(&self) -> Seq<u8> {
        self.header.spec_bytes() + tracks_bytes(self.tracks@) + self.trailing@
    }

    /// The image's structure is consistent: one well-formed track per
    /// (cylinder, side), in order, each as long as the header says.
    pub closed spec fn wf(&self) -> bool {
        &&& self.header.wf()
        &&& self.tracks@.len() == self.header.num_cylinders * self.header.num_sides
        &&& forall|i: int|
            0 <= i < self.tracks@.len() ==> {
                let t = #[trigger] self.tracks@[i];
                &&& t.wf()
                &&& t.header.cylinder_number == i / self.header.num_sides as int
                &&& t.header.side_number == i % self.header.num_sides as int
                &&& t.spec_bytes().len() == 256 * self.header.track_sizes@[i]
            }
    }

    pub closed spec fn spec_num_cylinders(&self) -> u8 {
        self.header.num_cylinders
    }

    pub closed spec fn spec_num_sides(&self) -> u8 {
        self.header.num_sides
    }

    /// The bytes of the sector at this address, if the image has it.
    pub closed spec fn spec_sector(&self, cylinder: int, head: int, sector: int) -> Option<Seq<u8>> {
        let sides = self.header.num_sides as int;
        if 0 <= head < sides && 0 <= cylinder < self.header.num_cylinders {
            let t = self.tracks@[cylinder * sides + head];
            let k = t.sector_pos(sector);
            if k >= 0 {
                Some(t.sector(k))
            } else {
                None
            }
        } else {
            None
        }
    }

    /// Decodes a whole image: the header, then one track record for each
    /// (cylinder, side) in that order.
    ///
    /// Each record must be as long as the header's size table says and carry
    /// the cylinder and side of its position; within a track all sectors have
    /// the track's size and distinct ids. Saving the result gives `data` back.
    pub fn load(data: &[u8]) -> (r: Result<DskImage, Error>)
        ensures
            match r {
                Ok(img) => img.wf() && img.spec_bytes() == data@,
                Err(_) => true,
            },
            !(data@.len() >= 34 && data@.subrange(0, 34) == super::structs::disk_magic()) ==> r
                == Err::<DskImage, Error>(Error::BadMagic),
            r is Ok <==> image_ok(data@),
    {
        let (header, hend) = match DskFileHeader::parse(data) {
            Ok(x) => x,
            Err(e) => return Err(e),
        };
        assert(data@.len() >= 34 && data@.subrange(0, 34) == super::structs::disk_magic()) by {
            assert(header.spec_bytes().subrange(0, 34) =~= super::structs::disk_magic());
            assert(data@.subrange(0, 34) =~= data@.subrange(0, hend as int).subrange(0, 34));
        }
        let sides = header.num_sides as usize;
        let n = header.track_sizes.len();
        let mut tracks: Vec<DskImageTrack> = Vec::new();
        let mut pos = hend;
        let mut idx: usize = 0;
        while idx < n
            invariant
                header.wf(),
                header_ok(data@),
                header.track_sizes@ == data@.subrange(52, 52 + data@[48] * data@[49]),
                header.num_cylinders == data@[48],
                header.num_sides == data@[49],
                image_ok(data@) == tracks_ok(data@, pos as int, idx as int, n as int, sides as int),
                n == header.track_sizes@.len(),
                n == header.num_cylinders * header.num_sides,
                sides == header.num_sides,
                data@.len() >= 34 && data@.subrange(0, 34) == super::structs::disk_magic(),
                idx <= n,
                pos <= data@.len(),
                tracks@.len() == idx,
                data@.subrange(0, pos as int) == header.spec_bytes() + tracks_bytes(tracks@),
                forall|i: int|
                    0 <= i < tracks@.len() ==> {
                        let t = #[trigger] tracks@[i];
                        &&& t.wf()
                        &&& t.header.cylinder_number == i / sides as int
                        &&& t.header.side_number == i % sides as int
                        &&& t.spec_bytes().len() == 256 * header.track_sizes@[i]
                    },
            decreases n - idx,
        {
            let start = pos;
            let (track, end) = match DskImageTrack::load(data, pos, idx) {
                Ok(x) => x,
                Err(e) => return Err(e),
            };
            assert(header.track_sizes@[idx as int] == data@[52 + idx]);
            if end - start != 256 * header.track_sizes[idx] as usize {
                return Err(Error::TrackSize { track: idx });
            }
            if track.header.cylinder_number as usize != idx / sides
                || track.header.side_number as usize != idx % sides {
                return Err(Error::TrackOrder { track: idx });
            }
            let ghost prev = tracks@;
            tracks.push(track);
            assert(tracks@.drop_last() =~= prev);
            assert(data@.subrange(0, end as int) =~= data@.subrange(0, start as int)
                + data@.subrange(start as int, end as int));
            pos = end;
            idx = idx + 1;
        }
        let trailing = copy_range(data, pos, data.len());
        let img = DskImage { header, tracks, trailing };
        assert(data@ =~= data@.subrange(0, pos as int) + data@.subrange(
            pos as int,
            data@.len() as int,
        ));
        Ok(img)
    }

    /// Encodes the whole image: header, then each track record.
    pub fn save(&self) -> (r: Vec<u8>)
        ensures
            r@ == self.spec_bytes(),
    {
        let mut out = self.header.to_bytes();
        let mut i: usize = 0;
        while i < self.tracks.len()
            invariant
                i <= self.tracks@.len(),
                out@ == self.header.spec_bytes() + tracks_bytes(self.tracks@.subrange(0, i as int)),
            decreases self.tracks@.len() - i,
        {
            self.tracks[i].save(&mut out);
            assert(self.tracks@.subrange(0, i + 1).drop_last() =~= self.tracks@.subrange(
                0,
                i as int,
            ));
            i = i + 1;
        }
        assert(self.tracks@.subrange(0, self.tracks@.len() as int) =~= self.tracks@);
        append_bytes(&mut out, self.trailing.as_slice());
        out
    }

    pub fn num_cylinders(&self) -> (r: u8)
        ensures
            r == self.spec_num_cylinders(),
    {
        self.header.num_cylinders
    }

    pub fn num_sides(&self) -> (r: u8)
        ensures
            r == self.spec_num_sides(),
    {
        self.header.num_sides
    }

    fn ch_to_track_index(&self, cylinder: u8, head: u8) -> (r: Result<usize, Error>)
        requires
            self.wf(),
        ensures
            head >= self.header.num_sides ==> r == Err::<usize, Error>(Error::InvalidHead { head }),
            head < self.header.num_sides && cylinder >= self.header.num_cylinders ==> r == Err::<
                usize,
                Error,
            >(Error::InvalidCylinder { cylinder }),
            head < self.header.num_sides && cylinder < self.header.num_cylinders ==> r is Ok,
            r matches Ok(t) ==> t == cylinder * self.header.num_sides + head && t
                < self.tracks@.len(),
    {
        if head >= self.header.num_sides {
            return Err(Error::InvalidHead { head });
        }
        if cylinder >= self.header.num_cylinders {
            return Err(Error::InvalidCylinder { cylinder });
        }
        proof {
            lemma_track_in_range(
                cylinder as int,
                head as int,
                self.header.num_cylinders as int,
                self.header.num_sides as int,
            );
            assert(self.header.num_cylinders * self.header.num_sides <= 255 * 255) by (nonlinear_arith)
                requires
                    self.header.num_cylinders <= 255,
                    self.header.num_sides <= 255,
            ;
        }
        Ok(cylinder as usize * self.header.num_sides as usize + head as usize)
    }

    /// The bytes of the sector at `chs`: the track is found from cylinder and
    /// head, then the sector by its id within that track.
    pub fn sector_as_slice(&self, chs: CHS) -> (r: Result<&[u8], Error>)
        requires
            self.wf(),
        ensures
            match self.spec_sector(chs.cylinder as int, chs.head as int, chs.sector as int) {
                Some(d) => r matches Ok(s) && s@ == d,
                None => r is Err,
            },
            chs.head >= self.spec_num_sides() ==> r == Err::<&[u8], Error>(
                Error::InvalidHead { head: chs.head },
            ),
            chs.head < self.spec_num_sides() && chs.cylinder >= self.spec_num_cylinders() ==> r
                == Err::<&[u8], Error>(Error::InvalidCylinder { cylinder: chs.cylinder }),
            chs.head < self.spec_num_sides() && chs.cylinder < self.spec_num_cylinders()
                && self.spec_sector(chs.cylinder as int, chs.head as int, chs.sector as int) is None
                ==> r == Err::<&[u8], Error>(Error::SectorNotFound { sector: chs.sector }),
    {
        let t = match self.ch_to_track_index(chs.cylinder, chs.head) {
            Ok(t) => t,
            Err(e) => return Err(e),
        };
        assert(self.tracks@[t as int].wf());
        assert(t == chs.cylinder * self.header.num_sides + chs.head);
        match self.tracks[t].sector_as_slice(chs.sector) {
            Some(s) => Ok(s),
            None => Err(Error::SectorNotFound { sector: chs.sector }),
        }
    }

    /// Writes `data` over the start of the sector at `chs`; the rest of that
    /// sector and every other sector keep their bytes.
    pub fn write_sector(&mut self, chs: CHS, data: &[u8]) -> (r: Result<(), Error>)
        requires
            old(self).wf(),
        ensures
            final(self).wf(),
            final(self).spec_num_cylinders() == old(self).spec_num_cylinders(),
            final(self).spec_num_sides() == old(self).spec_num_sides(),
            match old(self).spec_sector(chs.cylinder as int, chs.head as int, chs.sector as int) {
                Some(d) => if data@.len() <= d.len() {
                    &&& r is Ok
                    &&& final(self).spec_sector(chs.cylinder as int, chs.head as int, chs.sector as int)
                        == Some(data@ + d.subrange(data@.len() as int, d.len() as int))
                } else {
                    r == Err::<(), Error>(Error::SectorOverflow { sector: chs.sector })
                },
                None => r is Err,
            },
            r is Err ==> *final(self) == *old(self),
            forall|c: int, h: int, s: int|
                !(c == chs.cylinder && h == chs.head && s == chs.sector)
                    ==> #[trigger] final(self).spec_sector(c, h, s) == old(self).spec_sector(c, h, s),
    {
        let t = match self.ch_to_track_index(chs.cylinder, chs.head) {
            Ok(t) => t,
            Err(e) => return Err(e),
        };
        assert(self.tracks@[t as int].wf());
        let k = match self.tracks[t].find_sector(chs.sector) {
            Some(k) => k,
            None => return Err(Error::SectorNotFound { sector: chs.sector }),
        };
        proof {
            self.tracks@[t as int].lemma_sector_len(k as int);
        }
        if data.len() > self.tracks[t].header.sector_size as usize {
            return Err(Error::SectorOverflow { sector: chs.sector });
        }
        let ghost old_img = *self;
        self.tracks[t].write_at(k, data);
        proof {
            let sides = self.header.num_sides as int;
            let ot = old_img.tracks@[t as int];
            let nt = self.tracks@[t as int];
            let ss = ot.header.sector_size as int;
            assert(self.tracks@ == old_img.tracks@.update(t as int, nt));
            assert forall|i: int| 0 <= i < self.tracks@.len() implies {
                let tr = #[trigger] self.tracks@[i];
                &&& tr.wf()
                &&& tr.header.cylinder_number == i / sides
                &&& tr.header.side_number == i % sides
                &&& tr.spec_bytes().len() == 256 * self.header.track_sizes@[i]
            } by {
                assert(old_img.tracks@[i].wf());
            }
            let d = ot.sector(k as int);
            assert(nt.sector(k as int) =~= data@ + d.subrange(data@.len() as int, d.len() as int));
            assert forall|c: int, h: int, s: int|
                !(c == chs.cylinder && h == chs.head && s == chs.sector) implies #[trigger] self.spec_sector(
                c,
                h,
                s,
            ) == old_img.spec_sector(c, h, s) by {
                if 0 <= h < sides && 0 <= c < self.header.num_cylinders {
                    let t2 = c * sides + h;
                    lemma_track_in_range(c, h, self.header.num_cylinders as int, sides);
                    if t2 == t {
                        lemma_track_index(c, h, chs.cylinder as int, chs.head as int, sides);
                        let k2 = ot.sector_pos(s);
                        if k2 >= 0 {
                            assert(ot.header.sectors@[k2].sector_id == s);
                            assert(ot.header.sectors@[k as int].sector_id == chs.sector);
                            assert(k2 != k);
                            ot.lemma_sector_len(k2);
                            assert forall|j: int| 0 <= j < ss implies nt.sector(k2)[j] == ot.sector(
                                k2,
                            )[j] by {
                                lemma_sector_ranges_disjoint(k as int, k2, ss, k2 * ss + j);
                            }
                            assert(nt.sector(k2) =~= ot.sector(k2));
                        }
                    }
                }
            }
        }
        Ok(())
    }

    /// No sector lies outside the image's cylinders and sides.
    pub proof fn lemma_sector_out_of_range(&self, cylinder: int, head: int, sector: int)
        requires
            !(0 <= head < self.spec_num_sides() && 0 <= cylinder < self.spec_num_cylinders()),
        ensures
            self.spec_sector(cylinder, head, sector) is None,
    {
    }
}

} // verus!
