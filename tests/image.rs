use judim::cpm_fs::{CpmFs, LsMode, Params};
use judim::dsk::image::{DskImage, CHS};
use judim::dsk::structs::{DskFileHeader, SectorInfo, TrackInfo};
use judim::error::Error;
use judim::file_id::{FileId, FilenameMode};
use judim::select::select_files;

const TRACK_LEN: usize = 19 * 256;

/// An image in the layout of the Junior's disks: 9 sectors of 512 bytes a
/// track, each track record 19 units long, sector data filled with 0xE5.
fn image_bytes(cylinders: u8, sides: u8) -> Vec<u8> {
    let mut v = b"EXTENDED CPC DSK File\r\nDisk-Info\r\n".to_vec();
    v.extend_from_slice(b"CPCDiskXP v2.5");
    v.push(cylinders);
    v.push(sides);
    v.extend_from_slice(&[0, 0]);
    for _ in 0..(cylinders as usize * sides as usize) {
        v.push(19);
    }
    while v.len() % 256 != 0 {
        v.push(0);
    }
    for c in 0..cylinders {
        for h in 0..sides {
            let start = v.len();
            v.extend_from_slice(b"Track-Info\r\n");
            v.extend_from_slice(&[0, 0, 0, 0]);
            v.extend_from_slice(&[c, h, 0, 0, 2, 9, 42, 0]);
            for s in 1..=9u8 {
                v.extend_from_slice(&[c, h, s, 2, 0, 0, 0x00, 0x02]);
            }
            while (v.len() - start) % 256 != 0 {
                v.push(0);
            }
            v.extend(std::iter::repeat(0xE5u8).take(9 * 512));
        }
    }
    v
}

fn params() -> Params {
    Params { sectors_per_track: 9, reserved_tracks: 2, sector_size: 512, sectors_per_block: 4, dir_blocks: 4 }
}

/// Offset in the image bytes of logical sector `lsi` (two sides, 2 reserved tracks).
fn lsi_offset(lsi: usize) -> usize {
    let track = lsi / 9 + 2;
    256 + track * TRACK_LEN + 256 + (lsi % 9) * 512
}

/// Offset of directory slot `i`.
fn slot_offset(i: usize) -> usize {
    lsi_offset(i / 16) + (i % 16) * 32
}

fn put_entry(img: &mut Vec<u8>, slot: usize, user: u8, name: &[u8; 11], extent: u8, records: u8, blocks: &[u16]) {
    let o = slot_offset(slot);
    img[o] = user;
    img[o + 1..o + 12].copy_from_slice(name);
    img[o + 12] = extent;
    img[o + 13] = 0;
    img[o + 14] = 0;
    img[o + 15] = records;
    for k in 0..8 {
        let b = if k < blocks.len() { blocks[k] } else { 0 };
        img[o + 16 + 2 * k] = (b & 0xFF) as u8;
        img[o + 17 + 2 * k] = (b >> 8) as u8;
    }
}

#[test]
fn test_sector_info_serialization() {
    let sector_info = SectorInfo {
        cylinder: 2,
        side: 1,
        sector_id: 5,
        sector_size: 1536, // 1536 = 6 * 256
        fdc_st1: 17,
        fdc_st2: 18,
        actual_data_length: 512,
    };
    let buf = sector_info.to_bytes();
    assert_eq!(b"\x02\x01\x05\x06\x11\x12\x00\x02", buf.as_slice());
}

#[test]
fn test_sector_info_deserialization() {
    let sector_info = SectorInfo::read(b"\x02\x01\x05\x06\x11\x12\x00\x02", 0);
    assert_eq!(sector_info.cylinder, 2);
    assert_eq!(sector_info.side, 1);
    assert_eq!(sector_info.sector_id, 5);
    assert_eq!(sector_info.sector_size, 1536);
    assert_eq!(sector_info.fdc_st1, 17);
    assert_eq!(sector_info.fdc_st2, 18);
    assert_eq!(sector_info.actual_data_length, 512);
}

#[test]
fn test_track_info_serde() {
    let img = image_bytes(80, 2);
    let data = img[0x8600..0x8700].to_vec();
    let (track_info, end) = TrackInfo::parse(&data, 0).expect("Failed to read track info");
    assert_eq!(end, 0x100, "position after reading track info should be 0x100");
    assert_eq!(track_info.cylinder_number, 3);
    assert_eq!(track_info.side_number, 1);
    assert_eq!(track_info.sector_size, 512);
    assert_eq!(track_info.num_sectors, 9);
    assert_eq!(track_info.gap3_length, 42);
    assert_eq!(track_info.sectors.len(), 9);
    let s = &track_info.sectors[0];
    assert_eq!(s.cylinder, 3);
    assert_eq!(s.side, 1);
    assert_eq!(s.sector_id, 1);
    assert_eq!(s.sector_size, 512);
    assert_eq!(s.fdc_st1, 0);
    assert_eq!(s.fdc_st2, 0);
    assert_eq!(s.actual_data_length, 512);
    let output = track_info.to_bytes();
    assert_eq!(output.len(), 0x100);
    assert_eq!(output, data);
}

#[test]
fn test_dsk_header_serde() {
    let img = image_bytes(80, 2);
    let data = img[0..0x100].to_vec();
    let (dsk_header, end) = DskFileHeader::parse(&data).unwrap();
    assert_eq!(end, 0x100, "position after reading track info should be 0x100");
    assert_eq!(dsk_header.name_of_creator, b"CPCDiskXP v2.5".to_vec());
    assert_eq!(dsk_header.num_cylinders, 80);
    assert_eq!(dsk_header.num_sides, 2);
    assert_eq!(dsk_header.track_sizes, vec![19; 2 * 80]);
    assert_eq!(dsk_header.to_bytes(), data);
}

#[test]
fn image_test_load_save_dsk() {
    let mut img = image_bytes(80, 2);
    img[300] = 7;
    img[220] = 9; // padding of the header is kept as read
    let image = DskImage::load(&img).unwrap();
    assert_eq!(image.num_cylinders(), 80);
    assert_eq!(image.num_sides(), 2);
    assert_eq!(image.save(), img);
}

#[test]
fn trailing_bytes_survive_round_trip() {
    let mut img = image_bytes(2, 1);
    img.extend_from_slice(b"tail");
    let image = DskImage::load(&img).unwrap();
    assert_eq!(image.save(), img);
}

#[test]
fn cpm_fs_test_load_save_dsk() {
    let img = image_bytes(80, 2);
    let fs = CpmFs::load(&img, params()).unwrap();
    let files = fs.list_files(LsMode::All).unwrap();
    assert!(files.is_empty());
    assert_eq!(fs.image().save(), img);
}

#[test]
fn load_rejects_bad_images() {
    let img = image_bytes(2, 2);
    let mut bad = img.clone();
    bad[0] = b'X';
    assert_eq!(DskImage::load(&bad).err(), Some(Error::BadMagic));
    let mut bad = img.clone();
    bad[52] = 18;
    assert_eq!(DskImage::load(&bad).err(), Some(Error::TrackSize { track: 0 }));
    let mut bad = img.clone();
    bad[256 + TRACK_LEN + 16] = 1; // second record claims cylinder 1
    assert_eq!(DskImage::load(&bad).err(), Some(Error::TrackOrder { track: 1 }));
    let mut bad = img.clone();
    bad[256 + 24 + 8 + 2] = 1; // second sector gets id 1 too
    assert_eq!(
        DskImage::load(&bad).err(),
        Some(Error::DuplicateSectorId { track: 0, sector_id: 1 })
    );
    let mut bad = img.clone();
    bad[256 + 24 + 3] = 1; // first sector is 256 bytes long
    assert_eq!(DskImage::load(&bad).err(), Some(Error::VariableSectorSize { track: 0 }));
    assert_eq!(DskImage::load(&img[..1000]).err(), Some(Error::Truncated));
}

#[test]
fn sector_access_by_chs() {
    let mut img = image_bytes(2, 2);
    // cylinder 1, head 1, sector id 3
    let o = 256 + 3 * TRACK_LEN + 256 + 2 * 512;
    img[o] = 0x42;
    let image = DskImage::load(&img).unwrap();
    let s = image.sector_as_slice(CHS { cylinder: 1, head: 1, sector: 3 }).unwrap();
    assert_eq!(s.len(), 512);
    assert_eq!(s[0], 0x42);
    assert_eq!(
        image.sector_as_slice(CHS { cylinder: 0, head: 2, sector: 1 }).err(),
        Some(Error::InvalidHead { head: 2 })
    );
    assert_eq!(
        image.sector_as_slice(CHS { cylinder: 2, head: 0, sector: 1 }).err(),
        Some(Error::InvalidCylinder { cylinder: 2 })
    );
    assert_eq!(
        image.sector_as_slice(CHS { cylinder: 0, head: 0, sector: 10 }).err(),
        Some(Error::SectorNotFound { sector: 10 })
    );
}

#[test]
fn sector_write_touches_one_sector() {
    let img = image_bytes(2, 2);
    let mut image = DskImage::load(&img).unwrap();
    image.write_sector(CHS { cylinder: 0, head: 1, sector: 9 }, &[1, 2, 3]).unwrap();
    let s = image.sector_as_slice(CHS { cylinder: 0, head: 1, sector: 9 }).unwrap();
    assert_eq!(&s[0..4], &[1, 2, 3, 0xE5]);
    let out = image.save();
    let o = 256 + TRACK_LEN + 256 + 8 * 512;
    assert_eq!(&out[o..o + 4], &[1, 2, 3, 0xE5]);
    let mut expected = img.clone();
    expected[o..o + 3].copy_from_slice(&[1, 2, 3]);
    assert_eq!(out, expected);
    assert_eq!(
        image.write_sector(CHS { cylinder: 0, head: 0, sector: 1 }, &[0u8; 513]).err(),
        Some(Error::SectorOverflow { sector: 1 })
    );
}

#[test]
fn geometry_example_block_and_extent_sizes() {
    let img = image_bytes(40, 2);
    let mut fs = CpmFs::load(&img, params()).unwrap();
    assert_eq!(fs.block_size(), 2048);
    let id = FileId::new_with_filename(0, "DATA.BIN", FilenameMode::Normalized).unwrap();
    let data: Vec<u8> = (0..5000u32).map(|i| (i % 251) as u8).collect();
    let item = fs.write_file(&id, &data, false).unwrap();
    assert_eq!(item.block_list, vec![4, 5, 6]);
    assert_eq!(item.size, 5000);
    let files = fs.list_files(LsMode::All).unwrap();
    assert_eq!(files.len(), 1);
    assert_eq!(files[0].name, "DATA.BIN");
    assert_eq!(files[0].user, Some(0));
    assert_eq!(files[0].size, 40 * 128);
    assert_eq!(files[0].block_list, vec![4, 5, 6]);
}

#[test]
fn write_then_read_gives_the_data_back() {
    let img = image_bytes(40, 2);
    let mut fs = CpmFs::load(&img, params()).unwrap();
    let id = FileId::new_with_filename(3, "BIG.DAT", FilenameMode::AsIs).unwrap();
    let data: Vec<u8> = (0..40000u32).map(|i| (i * 7 % 256) as u8).collect();
    let item = fs.write_file(&id, &data, false).unwrap();
    assert_eq!(item.block_list.len(), 20);
    assert_eq!(fs.read_file(&item, false).unwrap(), data);
    let files = fs.list_files(LsMode::OwnedBy(3)).unwrap();
    assert_eq!(files.len(), 1);
    assert_eq!(files[0].block_list, item.block_list);
    assert_eq!(files[0].size, 40064);
    assert!(fs.list_files(LsMode::OwnedBy(2)).unwrap().is_empty());
    let read = fs.read_file(&files[0], false).unwrap();
    assert_eq!(&read[..40000], &data[..]);
    // the block data reached the image itself
    let saved = fs.image().save();
    let o = lsi_offset(4 * 4);
    assert_eq!(&saved[o..o + 512], &data[0..512]);
}

#[test]
fn text_mode_stops_at_ctrl_z() {
    let img = image_bytes(40, 2);
    let mut fs = CpmFs::load(&img, params()).unwrap();
    let id = FileId::new_with_filename(0, "NOTE.TXT", FilenameMode::Normalized).unwrap();
    let item = fs.write_file(&id, b"hello", true).unwrap();
    assert_eq!(fs.read_file(&item, true).unwrap(), b"hello".to_vec());
    let files = fs.list_files(LsMode::All).unwrap();
    assert_eq!(files[0].size, 128);
    let raw = fs.read_file(&files[0], false).unwrap();
    assert_eq!(&raw[..6], b"hello\x1a");
    assert_eq!(fs.read_file(&files[0], true).unwrap(), b"hello".to_vec());

    let id = FileId::new_with_filename(0, "BIN.DAT", FilenameMode::Normalized).unwrap();
    let mut data = vec![0x41u8; 3000];
    data[2500] = 0x1A;
    let item = fs.write_file(&id, &data, false).unwrap();
    assert_eq!(fs.read_file(&item, true).unwrap(), data[..2500].to_vec());
    assert_eq!(fs.read_file(&item, false).unwrap(), data);
}

#[test]
fn too_few_free_blocks_changes_nothing() {
    let img = image_bytes(4, 2);
    let mut fs = CpmFs::load(&img, params()).unwrap();
    // 4 * 2 * 9 / 4 = 18 blocks, 4 of them the directory
    let id = FileId::new_with_filename(0, "HUGE.BIN", FilenameMode::Normalized).unwrap();
    let data = vec![1u8; 15 * 2048];
    assert_eq!(
        fs.write_file(&id, &data, false).err(),
        Some(Error::NotEnoughBlocks { available: 14, required: 15 })
    );
    assert!(fs.list_files(LsMode::All).unwrap().is_empty());
    assert_eq!(fs.image().save(), img);
    // the same blocks are still free (blocks from 13 on lie partly past the
    // last cylinder, as the boot tracks take room)
    let item = fs.write_file(&id, &vec![1u8; 9 * 2048], false).unwrap();
    assert_eq!(item.block_list, (4..13).collect::<Vec<u16>>());
    assert_eq!(
        fs.write_file(&id, &vec![1u8; 2048], false).err(),
        Some(Error::UnreadableBlock { block: 13 })
    );
}

#[test]
fn too_few_directory_slots() {
    let img = image_bytes(40, 2);
    let p = Params { dir_blocks: 1, ..params() };
    let mut fs = CpmFs::load(&img, p).unwrap();
    for i in 0..64 {
        let id = FileId::new_with_filename(0, &format!("F{}.X", i), FilenameMode::Normalized).unwrap();
        fs.write_file(&id, &[i as u8], false).unwrap();
    }
    let id = FileId::new_with_filename(0, "LAST.X", FilenameMode::Normalized).unwrap();
    assert_eq!(
        fs.write_file(&id, &[1], false).err(),
        Some(Error::NotEnoughDirEntries { available: 0, required: 1 })
    );
    assert_eq!(fs.list_files(LsMode::All).unwrap().len(), 64);
}

#[test]
fn extent_gap_is_rejected() {
    let mut img = image_bytes(40, 2);
    put_entry(&mut img, 0, 1, b"GAP     TXT", 0, 128, &[4, 5, 6, 7, 8, 9, 10, 11]);
    put_entry(&mut img, 1, 1, b"GAP     TXT", 2, 10, &[12]);
    let fs = CpmFs::load(&img, params()).unwrap();
    assert_eq!(fs.list_files(LsMode::All).err(), Some(Error::ExtentIndex { expected: 1 }));
}

#[test]
fn duplicate_extent_is_rejected() {
    let mut img = image_bytes(40, 2);
    put_entry(&mut img, 0, 1, b"DUP     TXT", 0, 128, &[4, 5, 6, 7, 8, 9, 10, 11]);
    put_entry(&mut img, 1, 1, b"DUP     TXT", 0, 10, &[12]);
    let fs = CpmFs::load(&img, params()).unwrap();
    assert_eq!(fs.list_files(LsMode::All).err(), Some(Error::ExtentIndex { expected: 0 }));
}

#[test]
fn short_extent_is_rejected() {
    let mut img = image_bytes(40, 2);
    put_entry(&mut img, 3, 1, b"SHORT   TXT", 1, 10, &[12]);
    put_entry(&mut img, 5, 1, b"SHORT   TXT", 0, 127, &[4, 5, 6, 7, 8, 9, 10, 11]);
    let fs = CpmFs::load(&img, params()).unwrap();
    assert_eq!(fs.list_files(LsMode::All).err(), Some(Error::ShortExtent { index: 0 }));
}

#[test]
fn extents_are_joined_in_order() {
    let mut img = image_bytes(40, 2);
    put_entry(&mut img, 3, 1, b"LONG    TXT", 1, 10, &[20, 21]);
    put_entry(&mut img, 5, 1, b"LONG    TXT", 0, 128, &[4, 5, 6, 7, 8, 9, 10, 11]);
    put_entry(&mut img, 6, 2, b"OTHER   TXT", 0, 1, &[30]);
    let fs = CpmFs::load(&img, params()).unwrap();
    let files = fs.list_files(LsMode::All).unwrap();
    assert_eq!(files.len(), 2);
    assert_eq!(files[0].name, "LONG.TXT");
    assert_eq!(files[0].size, 138 * 128);
    assert_eq!(files[0].block_list, vec![4, 5, 6, 7, 8, 9, 10, 11, 20, 21]);
    assert_eq!(files[1].user, Some(2));
    let chosen = select_files(files, "L*.TXT");
    assert_eq!(chosen.len(), 1);
    assert_eq!(chosen[0].name, "LONG.TXT");
}

#[test]
fn shared_block_is_rejected() {
    let mut img = image_bytes(40, 2);
    put_entry(&mut img, 0, 1, b"ONE     TXT", 0, 10, &[5]);
    put_entry(&mut img, 1, 2, b"TWO     TXT", 0, 10, &[6, 5]);
    assert_eq!(CpmFs::load(&img, params()).err(), Some(Error::DuplicateBlock { block: 5 }));
}

#[test]
fn block_beyond_filesystem_is_rejected() {
    let mut img = image_bytes(4, 2);
    put_entry(&mut img, 0, 1, b"ONE     TXT", 0, 10, &[18]);
    assert_eq!(CpmFs::load(&img, params()).err(), Some(Error::BlockOutOfRange { block: 18 }));
}

#[test]
fn block_list_hole_is_rejected() {
    let mut img = image_bytes(40, 2);
    put_entry(&mut img, 0, 1, b"HOLE    TXT", 0, 10, &[5, 0, 6]);
    assert_eq!(CpmFs::load(&img, params()).err(), Some(Error::BlockListHole { extent: 0 }));
}

#[test]
fn deleted_files_are_listed_on_request() {
    let mut img = image_bytes(40, 2);
    put_entry(&mut img, 0, 0xE5, b"GONE    TXT", 0, 3, &[7]);
    let fs = CpmFs::load(&img, params()).unwrap();
    assert!(fs.list_files(LsMode::All).unwrap().is_empty());
    let files = fs.list_files(LsMode::Deleted).unwrap();
    assert_eq!(files.len(), 1);
    assert_eq!(files[0].user, None);
    assert_eq!(files[0].name, "GONE.TXT");
    assert_eq!(files[0].block_list, vec![7]);
}

#[test]
fn invalid_params_are_rejected() {
    let img = image_bytes(4, 2);
    let p = Params { sectors_per_track: 0, ..params() };
    assert_eq!(CpmFs::load(&img, p).err(), Some(Error::InvalidParams));
    let p = Params { sector_size: 100, ..params() };
    assert_eq!(CpmFs::load(&img, p).err(), Some(Error::InvalidParams));
}

#[test]
fn logical_sectors_follow_tracks_and_sides() {
    let img = image_bytes(4, 2);
    let mut fs = CpmFs::load(&img, params()).unwrap();
    let block = vec![0x5Au8; 2048];
    fs.write_block(6, &block).unwrap();
    assert_eq!(fs.read_block(6).unwrap(), block);
    // block 6 is logical sectors 24..27: track 2 + 24 / 9 = 4 (cylinder 2,
    // head 0), sector ids 7, 8, 9, then track 5 (cylinder 2, head 1) id 1
    let saved = fs.image().save();
    let t4 = 256 + 4 * TRACK_LEN + 256;
    let t5 = 256 + 5 * TRACK_LEN + 256;
    assert_eq!(saved[t4 + 6 * 512], 0x5A);
    assert_eq!(saved[t4 + 5 * 512 + 511], 0xE5);
    assert_eq!(saved[t5], 0x5A);
    assert_eq!(saved[t5 + 512], 0xE5);
    assert_eq!(fs.read_block(17).err(), Some(Error::UnreadableBlock { block: 17 }));
}

#[test]
fn size_beyond_blocks_is_an_error() {
    let mut img = image_bytes(40, 2);
    put_entry(&mut img, 0, 1, b"CLAIM   TXT", 0, 128, &[4]);
    let fs = CpmFs::load(&img, params()).unwrap();
    let files = fs.list_files(LsMode::All).unwrap();
    assert_eq!(files[0].size, 128 * 128);
    assert_eq!(fs.read_file(&files[0], false).err(), Some(Error::SizeMismatch));
    // in text mode the first ^Z ends the file before the size is checked
    let mut img = img.clone();
    img[lsi_offset(16) + 10] = 0x1A;
    let fs = CpmFs::load(&img, params()).unwrap();
    let files = fs.list_files(LsMode::All).unwrap();
    assert_eq!(fs.read_file(&files[0], true).unwrap(), vec![0xE5u8; 10]);
}
