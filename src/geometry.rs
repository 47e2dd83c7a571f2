//! Filesystem parameters and the mapping of logical sectors to disk addresses.
use vstd::prelude::*;

verus! {

/// Parameters of a CP/M filesystem; they are not stored on the disk.
#[derive(Debug, Clone, Copy, PartialEq, Eq, Structural)]
pub struct Params {
    /// Sectors per track (CP/M requires every track to have as many).
    pub sectors_per_track: u8,
    /// Tracks (not cylinders) at the start of the disk kept for booting.
    pub reserved_tracks: u8,
    /// Size of a sector in bytes.
    pub sector_size: u16,
    /// Sectors per allocation block.
    pub sectors_per_block: u8,
    /// Blocks at the start of the filesystem that hold the directory.
    pub dir_blocks: u8,
}

impl Params {
    pub open spec fn spec_block_size(self) -> int {
        self.sector_size * self.sectors_per_block
    }

    /// Records one directory entry can hold: 8 blocks of 128-byte records.
    pub open spec fn records_per_extent(self) -> int {
        self.spec_block_size() * 8 / 128
    }

    /// Blocks of the filesystem: all sectors of the disk, whole blocks only.
    pub open spec fn spec_num_blocks(self, cylinders: u8, sides: u8) -> int {
        (cylinders * sides * self.sectors_per_track) / (self.sectors_per_block as int)
    }

    /// The parameters can be used on a disk of this geometry: no division by
    /// zero, whole records per sector, a record count that fits its byte and
    /// block numbers that fit 16 bits.
    pub open spec fn valid_for(self, cylinders: u8, sides: u8) -> bool {
        &&& self.sectors_per_track > 0
        &&& self.sectors_per_block > 0
        &&& sides > 0
        &&& self.sector_size > 0
        &&& self.sector_size % 128 == 0
        &&& self.spec_block_size() * 8 <= 128 * 255
        &&& self.spec_num_blocks(cylinders, sides) <= 0xFFFF
    }
}

/// The physical address (cylinder, head, sector id) of a logical sector:
/// reserved tracks come first, then tracks side by side, sector ids from 1.
pub open spec fn spec_lsi_to_chs(spt: int, reserved: int, sides: int, lsi: int) -> (int, int, int) {
    let track = lsi / spt + reserved;
    (track / sides, track % sides, lsi % spt + 1)
}

/// The logical sector at a physical address.
pub open spec fn spec_chs_to_lsi(spt: int, reserved: int, sides: int, c: int, h: int, s: int) -> int {
    (c * sides + h - reserved) * spt + (s - 1)
}

/// Logical sector to physical address and back gives the same sector.
pub proof fn lemma_lsi_chs_round_trip(spt: int, reserved: int, sides: int, lsi: int)
    requires
        spt > 0,
        sides > 0,
        reserved >= 0,
        lsi >= 0,
    ensures
        ({
            let (c, h, s) = spec_lsi_to_chs(spt, reserved, sides, lsi);
            &&& 0 <= h < sides
            &&& 1 <= s <= spt
            &&& c * sides + h >= reserved
            &&& spec_chs_to_lsi(spt, reserved, sides, c, h, s) == lsi
        }),
{
    let q = lsi / spt;
    let r = lsi % spt;
    let track = q + reserved;
    let c = track / sides;
    let h = track % sides;
    vstd::arithmetic::div_mod::lemma_fundamental_div_mod(lsi, spt);
    vstd::arithmetic::div_mod::lemma_fundamental_div_mod(track, sides);
    vstd::arithmetic::div_mod::lemma_mod_bound(lsi, spt);
    vstd::arithmetic::div_mod::lemma_mod_bound(track, sides);
    vstd::arithmetic::div_mod::lemma_div_pos_is_pos(lsi, spt);
    assert(c * sides + h == track) by (nonlinear_arith)
        requires
            track == sides * c + h,
    ;
    assert((c * sides + h - reserved) * spt + r == lsi) by (nonlinear_arith)
        requires
            c * sides + h - reserved == q,
            lsi == spt * q + r,
    ;
}

/// Every physical address past the reserved tracks, with a sector id from 1
/// to the sectors per track, is the address of exactly the logical sector
/// that `spec_chs_to_lsi` gives.
pub proof fn lemma_chs_lsi_round_trip(spt: int, reserved: int, sides: int, c: int, h: int, s: int)
    requires
        spt > 0,
        sides > 0,
        reserved >= 0,
        c >= 0,
        0 <= h < sides,
        1 <= s <= spt,
        c * sides + h >= reserved,
    ensures
        spec_chs_to_lsi(spt, reserved, sides, c, h, s) >= 0,
        spec_lsi_to_chs(spt, reserved, sides, spec_chs_to_lsi(spt, reserved, sides, c, h, s)) == (
        c,
        h,
        s,
        ),
{
    let t = c * sides + h - reserved;
    let lsi = t * spt + (s - 1);
    assert(t * spt >= 0) by (nonlinear_arith)
        requires
            t >= 0,
            spt > 0,
    ;
    vstd::arithmetic::div_mod::lemma_fundamental_div_mod_converse(lsi, spt, t, s - 1);
    vstd::arithmetic::div_mod::lemma_fundamental_div_mod_converse(c * sides + h, sides, c, h);
}

/// Two logical sectors with the same physical address are the same sector.
pub proof fn lemma_lsi_to_chs_injective(spt: int, reserved: int, sides: int, a: int, b: int)
    requires
        spt > 0,
        sides > 0,
        reserved >= 0,
        a >= 0,
        b >= 0,
        spec_lsi_to_chs(spt, reserved, sides, a) == spec_lsi_to_chs(spt, reserved, sides, b),
    ensures
        a == b,
{
    lemma_lsi_chs_round_trip(spt, reserved, sides, a);
    lemma_lsi_chs_round_trip(spt, reserved, sides, b);
}

/// Consecutive logical sectors within one track have the same cylinder and
/// head and consecutive sector ids.
pub proof fn lemma_lsi_to_chs_within_track(spt: int, reserved: int, sides: int, lsi: int)
    requires
        spt > 0,
        sides > 0,
        reserved >= 0,
        lsi >= 0,
        (lsi + 1) / spt == lsi / spt,
    ensures
        ({
            let (c, h, s) = spec_lsi_to_chs(spt, reserved, sides, lsi);
            let (c2, h2, s2) = spec_lsi_to_chs(spt, reserved, sides, lsi + 1);
            c2 == c && h2 == h && s2 == s + 1
        }),
{
    vstd::arithmetic::div_mod::lemma_fundamental_div_mod(lsi, spt);
    vstd::arithmetic::div_mod::lemma_fundamental_div_mod(lsi + 1, spt);
}

} // verus!
