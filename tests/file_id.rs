use judim::error::Error;
use judim::file_id::FilenameMode::{AsIs, Normalized};
use judim::file_id::{FileId, FilenameMode};

#[test]
fn test_new_valid_case_as_is() {
    let id = FileId::new_with_filename(1, "FoO.Pas", AsIs).unwrap();
    assert_eq!(id.user, 1);
    assert_eq!(id.name, *b"FoO     ");
    assert_eq!(id.extension, *b"Pas");
}

#[test]
fn test_new_valid_case_norm() {
    let id = FileId::new_with_filename(1, "FoO.Pas", Normalized).unwrap();
    assert_eq!(id.user, 1);
    assert_eq!(id.name, *b"FOO     ");
    assert_eq!(id.extension, *b"PAS");
}

#[test]
fn test_new_invalid_name() {
    assert!(FileId::new_with_filename(1, "a.b.c", FilenameMode::Normalized).is_err());
    assert!(FileId::new_with_filename(1, "a.bdec", FilenameMode::Normalized).is_err());
    assert!(FileId::new_with_filename(1, "abcdefghi.bec", FilenameMode::Normalized).is_err());
    assert!(FileId::new_with_filename(1, "abcdðŸ˜€.bec", FilenameMode::Normalized).is_err());
    assert!(FileId::new_with_filename(1, "abcd.bðŸ˜€", FilenameMode::Normalized).is_err());

    // these use ASCII but outside allowed character subset
    assert!(FileId::new_with_filename(1, "abcd.b+", FilenameMode::Normalized).is_err());
    assert!(FileId::new_with_filename(1, "a+bcd.b", FilenameMode::Normalized).is_err());
}

#[test]
fn test_new_invalid_user() {
    assert!(FileId::new_with_filename(0, "a.b", FilenameMode::Normalized).is_ok());
    assert!(FileId::new_with_filename(15, "a.b", FilenameMode::Normalized).is_ok());
    assert!(FileId::new_with_filename(16, "a.b", FilenameMode::Normalized).is_err());
    // creating deleted files is disallowed
    assert!(FileId::new_with_filename(0xE5, "a.b", FilenameMode::Normalized).is_err());
}

#[test]
fn test_to_bytes() {
    let id = FileId::new_with_filename(3, "FoO.Pas", Normalized).unwrap();
    let mut bytes = [0; 12];
    id.to_bytes(&mut bytes);
    assert_eq!(bytes, *b"\x03FOO     PAS");
}

#[test]
fn test_to_bytes_deleted() {
    let mut id = FileId::new_with_filename(3, "FoO.Pas", Normalized).unwrap();
    id.user = 0xE5;
    let mut bytes = b"0123456789AB".clone();
    id.to_bytes(&mut bytes);
    assert_eq!(bytes, *b"\xE5123456789AB");
}

#[test]
fn test_from_bytes_invalid_user() {
    assert!(FileId::from_bytes(b"A123456789AB").is_err());
}

#[test]
fn test_from_bytes_valid_case() {
    let id = FileId::from_bytes(b"\x00TesT    zX ");
    assert!(id.is_ok());

    let id = id.unwrap();
    assert_eq!(id.user, 0);
    assert_eq!(id.filename(), "TesT.zX");
}

#[test]
fn test_from_bytes_name_validation() {
    // space inside name
    assert!(FileId::from_bytes(b"\x00Te T    zX ").is_err());
    // dot inside name
    assert!(FileId::from_bytes(b"\x00Te.T    zX ").is_err());
    // empty name
    assert!(FileId::from_bytes(b"\x00        zX ").is_err());
    // name with byte >127
    assert!(FileId::from_bytes(b"\x00\xAA       zX ").is_err());

    // empty extension is OK
    assert!(FileId::from_bytes(b"\x00TeeT       ").is_ok());
    // so is extension with >127 code (MSB is for flags)
    assert!(FileId::from_bytes(b"\x00TeeT    \xC1  ").is_ok());
}

#[test]
fn empty_extension_is_accepted() {
    let id = FileId::new_with_filename(0, "READ.", Normalized).unwrap();
    assert_eq!(id.extension, *b"   ");
    assert_eq!(id.filename(), "READ.");
}

#[test]
fn name_without_dot_is_rejected() {
    assert_eq!(FileId::new_with_filename(1, "abc", AsIs).err(), Some(Error::InvalidFilename));
}

#[test]
fn error_kinds_of_construction() {
    assert_eq!(
        FileId::new_with_filename(16, "a.b", AsIs).err(),
        Some(Error::InvalidUser { user: 16 })
    );
    assert_eq!(FileId::new_with_filename(2, "a.b.c", AsIs).err(), Some(Error::InvalidFilename));
    assert_eq!(FileId::new_with_filename(2, "a+b.c", AsIs).err(), Some(Error::InvalidName));
    assert_eq!(FileId::new_with_filename(2, ".c", AsIs).err(), Some(Error::InvalidName));
    assert_eq!(FileId::new_with_filename(2, "a b.c", AsIs).err(), Some(Error::InvalidName));
}

#[test]
fn legal_punctuation_is_accepted() {
    let id = FileId::new_with_filename(5, "!#$%&'()-@^_{}~.a1", AsIs);
    assert!(id.is_err());
    let id = FileId::new_with_filename(5, "{A}~-@^_.$%&", AsIs).unwrap();
    assert_eq!(id.name, *b"{A}~-@^_");
    assert_eq!(id.extension, *b"$%&");
}

#[test]
fn from_bytes_masks_flags_and_keeps_deleted_raw() {
    let id = FileId::from_bytes(b"\x02ABC     \xC1\xC2 ").unwrap();
    assert_eq!(id.extension, *b"AB ");
    let id = FileId::from_bytes(b"\xE5\xE5\xE5\xE5\xE5\xE5\xE5\xE5\xE5\xE5\xE5\xE5").unwrap();
    assert_eq!(id.user, 0xE5);
    assert_eq!(id.extension, [0xE5, 0xE5, 0xE5]);
    assert_eq!(FileId::from_bytes(b"\x10ABC     TXT").err(), Some(Error::InvalidUser { user: 16 }));
    assert_eq!(FileId::from_bytes(b"\x01A+C     TXT").err(), Some(Error::InvalidName));
}

#[test]
fn filename_trims_padding() {
    let id = FileId::from_bytes(b"\x00A       B  ").unwrap();
    assert_eq!(id.filename(), "A.B");
}
