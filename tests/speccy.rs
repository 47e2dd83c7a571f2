use judim::error::Error;
use judim::speccy_files::{SpeccyFile, SpeccyFileHeader, SpeccyFileType};

#[test]
fn test_speccy_file_header_parse() {
    let h = SpeccyFileHeader::from_bytes(b"\x00\x41\x42\x20\x20\x20\x20\x20\x20\x20\x20\x01\x30\x02\x40\x03\x50").unwrap();
    assert_eq!(h.file_type, SpeccyFileType::Program);
    assert_eq!(h.name(), "AB".as_bytes());
    assert_eq!(h.length, 12289);
    assert_eq!(h.param1, 16386);
    assert_eq!(h.param2, 20483);
}

fn tape_block(header: &[u8; 17], data: &[u8]) -> Vec<u8> {
    let mut v = vec![0x13, 0x00, 0x00];
    v.extend_from_slice(header);
    v.push(header.iter().fold(0u8, |a, b| a ^ b));
    let size = data.len() + 2;
    v.push((size % 256) as u8);
    v.push((size / 256) as u8);
    v.push(0xFF);
    v.extend_from_slice(data);
    v.push(data.iter().fold(0u8, |a, b| a ^ b) ^ 0xFF);
    v
}

#[test]
fn tape_files_are_read_in_order() {
    let mut tape = tape_block(b"\x00PROG      \x03\x00\x0a\x00\x03\x00", &[1, 2, 3]);
    tape.extend(tape_block(b"\x03SCREEN    \x02\x00\x00\x40\x00\x00", &[9, 8]));
    let files = SpeccyFile::load_tap_file(&tape).unwrap();
    assert_eq!(files.len(), 2);
    assert_eq!(files[0].name(), "PROG");
    assert_eq!(files[0].file_type(), SpeccyFileType::Program);
    assert_eq!(files[0].size(), 3);
    match &files[0] {
        SpeccyFile::Program(p) => {
            assert_eq!(p.get_autostart_line(), Some(10));
            assert_eq!(p.vars_offset(), 3);
        },
        _ => panic!("not a program"),
    }
    match &files[1] {
        SpeccyFile::Code(c) => assert_eq!(c.load_address(), 0x4000),
        _ => panic!("not code"),
    }
    assert_eq!(files[1].file_type().extension(), "cod");
    assert_eq!(files[1].file_type().description(), "Code/bytes");
    let mut out = Vec::new();
    files[1].write_header(&mut out);
    files[1].write_raw_data(&mut out);
    assert_eq!(out, b"\x03SCREEN    \x02\x00\x00\x40\x00\x00\x09\x08".to_vec());
}

#[test]
fn tape_errors() {
    let good = tape_block(b"\x00PROG      \x03\x00\x0a\x00\x03\x00", &[1, 2, 3]);
    let mut bad = good.clone();
    bad[0] = 0x12;
    assert_eq!(SpeccyFile::load_tap_file(&bad).err(), Some(Error::InvalidHeaderMarker));
    let mut bad = good.clone();
    bad[20] ^= 1;
    assert_eq!(SpeccyFile::load_tap_file(&bad).err(), Some(Error::HeaderChecksum));
    let mut bad = good.clone();
    bad[23] = 0;
    assert_eq!(SpeccyFile::load_tap_file(&bad).err(), Some(Error::InvalidDataMarker));
    let mut bad = good.clone();
    let last = bad.len() - 1;
    bad[last] ^= 1;
    assert_eq!(SpeccyFile::load_tap_file(&bad).err(), Some(Error::DataChecksum));
    let bad = tape_block(b"\x07PROG      \x03\x00\x0a\x00\x03\x00", &[1, 2, 3]);
    assert_eq!(SpeccyFile::load_tap_file(&bad).err(), Some(Error::InvalidFileType { value: 7 }));
    assert_eq!(SpeccyFile::load_tap_file(&good[..10]).err(), Some(Error::Truncated));
    assert!(SpeccyFile::load_tap_file(&[]).unwrap().is_empty());
}

#[test]
fn autorun_can_be_disabled() {
    let tape = tape_block(b"\x00PROG      \x03\x00\x0a\x00\x03\x00", &[1, 2, 3]);
    let mut files = SpeccyFile::load_tap_file(&tape).unwrap();
    match &mut files[0] {
        SpeccyFile::Program(p) => {
            p.disable_autorun();
            assert_eq!(p.get_autostart_line(), None);
        },
        _ => panic!("not a program"),
    }
    let mut out = Vec::new();
    files[0].write_header(&mut out);
    assert_eq!(out, b"\x00PROG      \x03\x00\x00\x80\x03\x00".to_vec());
}

#[test]
fn disk_file_reads_header_then_data() {
    let f = SpeccyFile::read(b"\x01NUMS      \x02\x00\x00\x00\x00\x00\x05\x06\x00\x00").unwrap();
    assert_eq!(f.file_type(), SpeccyFileType::NumArray);
    assert_eq!(f.name(), "NUMS");
    let mut out = Vec::new();
    f.write_raw_data(&mut out);
    assert_eq!(out, vec![5, 6, 0, 0]);
    assert_eq!(SpeccyFile::read(b"\x01NUMS").err(), Some(Error::Truncated));
}
