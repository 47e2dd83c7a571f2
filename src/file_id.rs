//! Identity of a CP/M file: owner, 8-byte name and 3-byte extension.
use vstd::prelude::*;

use crate::error::Error;
use vstd::string::StringSliceAdditionalSpecFns;
use crate::text::{ascii_text, is_ascii_text, lossy_text, text_from_bytes};

verus! {

pub const MAX_USER_ID: u8 = 15;

/// The user byte of a slot that holds no file (deleted, or never used).
pub const DELETED_USER: u8 = 0xE5;

pub const MAX_NAME_LEN: usize = 8;

pub const MAX_EXT_LEN: usize = 3;

pub const SPACE: u8 = 0x20;

pub const DOT: u8 = 0x2E;

/// A name field: one legal character or more, then space padding.
pub const NAME_FIELD_PATTERN: &'static str = r"^[A-Za-z0-9!#\$%&'\(\)\-@^_{\}~]+ *$";

/// An extension field: legal characters (possibly none), then space padding.
pub const EXT_FIELD_PATTERN: &'static str = r"^[A-Za-z0-9!#\$%&'\(\)\-@^_{\}~]* *$";

/// How a name given by the user is turned into directory bytes.
#[derive(Debug, Clone, Copy, PartialEq, Eq, Structural)]
pub enum FilenameMode {
    /// Bytes are kept as given (CP/M itself is case-sensitive).
    AsIs,
    /// ASCII letters are upper-cased, as the CP/M command shell does.
    Normalized,
}

/// Identity of a file: equality is over the raw bytes of the three fields.
#[derive(Debug, Clone, Copy, PartialEq, Eq, Hash)]
pub struct FileId {
    pub user: u8,
    pub name: [u8; 8],
    pub extension: [u8; 3],
}

/// The characters that may appear in a name or an extension.
pub open spec fn is_legal_char(b: u8) -> bool {
    ||| (0x41 <= b <= 0x5A)  // A-Z
    ||| (0x61 <= b <= 0x7A)  // a-z
    ||| (0x30 <= b <= 0x39)  // 0-9
    ||| b == 0x21 || b == 0x23 || b == 0x24 || b == 0x25 || b == 0x26  // ! # $ % &
    ||| b == 0x27 || b == 0x28 || b == 0x29 || b == 0x2D || b == 0x40  // ' ( ) - @
    ||| b == 0x5E || b == 0x5F || b == 0x7B || b == 0x7D || b == 0x7E  // ^ _ { } ~
}

/// `s` is a run of at least `min_len` legal characters followed by spaces only.
pub open spec fn is_padded_field(s: Seq<u8>, min_len: int) -> bool {
    exists|k: int|
        #![trigger s.subrange(0, k)]
        min_len <= k <= s.len() && (forall|i: int| 0 <= i < k ==> is_legal_char(#[trigger] s[i]))
            && (forall|i: int| k <= i < s.len() ==> #[trigger] s[i] == SPACE)
}

pub open spec fn is_valid_name_field(s: Seq<u8>) -> bool {
    is_padded_field(s, 1)
}

pub open spec fn is_valid_ext_field(s: Seq<u8>) -> bool {
    is_padded_field(s, 0)
}

/// Relies on regex::bytes::Regex: each of the two patterns of this module
/// compiles, and `is_match` reports whether the whole field matches it.
#[verifier::external_body]
fn field_matches(pattern: &str, field: &[u8]) -> (r: bool)
    requires
        pattern@ == NAME_FIELD_PATTERN@ || pattern@ == EXT_FIELD_PATTERN@,
    ensures
        pattern@ == NAME_FIELD_PATTERN@ ==> r == is_valid_name_field(field@),
        pattern@ == EXT_FIELD_PATTERN@ ==> r == is_valid_ext_field(field@),
{
    regex::bytes::Regex::new(pattern).unwrap().is_match(field)
}

pub open spec fn is_ascii_byte(b: u8) -> bool {
    b < 0x80
}

pub open spec fn ascii_upper(b: u8) -> u8 {
    if 0x61 <= b <= 0x7A {
        (b - 0x20) as u8
    } else {
        b
    }
}

/// The bytes of one field given by the user, case-mapped by `mode`.
pub open spec fn mapped_bytes(s: Seq<u8>, mode: FilenameMode) -> Seq<u8> {
    match mode {
        FilenameMode::AsIs => s,
        FilenameMode::Normalized => s.map_values(|b: u8| ascii_upper(b)),
    }
}

/// `s` written into a field of `n` bytes, padded with spaces.
pub open spec fn padded(s: Seq<u8>, n: int) -> Seq<u8> {
    s + Seq::new((n - s.len()) as nat, |i: int| SPACE)
}

/// `d` is the position of the one and only dot of `s`.
pub open spec fn is_single_dot_at(s: Seq<u8>, d: int) -> bool {
    &&& 0 <= d < s.len()
    &&& s[d] == DOT
    &&& forall|i: int| 0 <= i < s.len() && i != d ==> #[trigger] s[i] != DOT
}

/// The (name, extension) of an 8.3 file name: exactly one dot, at most 8 and
/// 3 bytes around it, all of them ASCII.
pub open spec fn split_filename(s: Seq<u8>) -> Option<(Seq<u8>, Seq<u8>)> {
    if exists|d: int| is_single_dot_at(s, d) {
        let d = choose|d: int| is_single_dot_at(s, d);
        let name = s.subrange(0, d);
        let ext = s.subrange(d + 1, s.len() as int);
        if name.len() <= MAX_NAME_LEN && ext.len() <= MAX_EXT_LEN && (forall|i: int|
            0 <= i < s.len() ==> is_ascii_byte(#[trigger] s[i])) {
            Some((name, ext))
        } else {
            None
        }
    } else {
        None
    }
}

/// The mathematical content of a `FileId`.
pub struct FileIdView {
    pub user: u8,
    pub name: Seq<u8>,
    pub extension: Seq<u8>,
}

impl View for FileId {
    type V = FileIdView;

    open spec fn view(&self) -> FileIdView {
        FileIdView { user: self.user, name: self.name@, extension: self.extension@ }
    }
}

pub open spec fn id_result_view(r: Result<FileId, Error>) -> Result<FileIdView, Error> {
    match r {
        Ok(id) => Ok(id@),
        Err(e) => Err(e),
    }
}

/// What `FileId::new_with_filename` gives for a file name with these bytes.
pub open spec fn spec_new_with_filename(user: u8, filename: Seq<u8>, mode: FilenameMode) -> Result<
    FileIdView,
    Error,
> {
    if user > MAX_USER_ID {
        Err(Error::InvalidUser { user })
    } else {
        match split_filename(filename) {
            None => Err(Error::InvalidFilename),
            Some((n, e)) => {
                let name = padded(mapped_bytes(n, mode), 8);
                let extension = padded(mapped_bytes(e, mode), 3);
                if is_valid_name_field(name) && is_valid_ext_field(extension) {
                    Ok(FileIdView { user, name, extension })
                } else {
                    Err(Error::InvalidName)
                }
            },
        }
    }
}

/// The extension field with the flag bits (the high bit of each byte) cleared.
pub open spec fn unflagged(s: Seq<u8>) -> Seq<u8> {
    s.map_values(|b: u8| b & 0x7F)
}

/// What `FileId::from_bytes` gives for the first 12 bytes of a directory slot.
pub open spec fn spec_id_from_bytes(b: Seq<u8>) -> Result<FileIdView, Error> {
    let user = b[0];
    let name = b.subrange(1, 9);
    let raw_ext = b.subrange(9, 12);
    if user == DELETED_USER {
        Ok(FileIdView { user, name, extension: raw_ext })
    } else if user > MAX_USER_ID {
        Err(Error::InvalidUser { user })
    } else if !is_valid_name_field(name) || !is_valid_ext_field(unflagged(raw_ext)) {
        Err(Error::InvalidName)
    } else {
        Ok(FileIdView { user, name, extension: unflagged(raw_ext) })
    }
}

/// `s` without its trailing spaces.
pub open spec fn trim_spaces(s: Seq<u8>) -> Seq<u8>
    decreases s.len(),
{
    if s.len() > 0 && s.last() == SPACE {
        trim_spaces(s.drop_last())
    } else {
        s
    }
}

/// The bytes of the display name "NAME.EXT" of a file.
pub open spec fn filename_bytes(id: FileIdView) -> Seq<u8> {
    trim_spaces(id.name) + seq![DOT] + trim_spaces(id.extension)
}

fn trimmed_len(s: &[u8]) -> (k: usize)
    ensures
        k <= s@.len(),
        trim_spaces(s@) == s@.subrange(0, k as int),
{
    let mut k: usize = s.len();
    assert(s@.subrange(0, k as int) =~= s@);
    while k > 0 && s[k - 1] == SPACE
        invariant
            k <= s@.len(),
            trim_spaces(s@) == trim_spaces(s@.subrange(0, k as int)),
        decreases k,
    {
        assert(s@.subrange(0, k as int).drop_last() =~= s@.subrange(0, k - 1));
        k = k - 1;
    }
    k
}

impl FileId {
    /// Parses an 8.3 file name and makes the identity of a file owned by `user`.
    ///
    /// Fails on a user above 15 (so no deleted entry can be made here), on a name
    /// that is not 8.3 ASCII, and on characters outside the legal set.
    pub fn new_with_filename(user: u8, filename: &str, mode: FilenameMode) -> (r: Result<
        FileId,
        Error,
    >)
        ensures
            id_result_view(r) == spec_new_with_filename(user, filename.spec_bytes(), mode),
    {
        if user > MAX_USER_ID {
            return Err(Error::InvalidUser { user });
        }
        match Self::parse_filename(filename.as_bytes()) {
            Some((name, extension)) => {
                let mut id = FileId { user, name: [SPACE; 8], extension: [SPACE; 3] };
                assert(id.name@ =~= Seq::new(8, |i: int| SPACE));
                assert(id.extension@ =~= Seq::new(3, |i: int| SPACE));
                Self::str_to_padded_bytes(&mut id.name, name, mode);
                Self::str_to_padded_bytes(&mut id.extension, extension, mode);
                assert(id.name@ =~= padded(mapped_bytes(name@, mode), 8));
                assert(id.extension@ =~= padded(mapped_bytes(extension@, mode), 3));
                if !field_matches(NAME_FIELD_PATTERN, &id.name) || !field_matches(
                    EXT_FIELD_PATTERN,
                    &id.extension,
                ) {
                    return Err(Error::InvalidName);
                }
                Ok(id)
            },
            None => Err(Error::InvalidFilename),
        }
    }

    /// Decodes the first 12 bytes of a directory slot.
    ///
    /// A slot marked deleted is taken as it is. Otherwise the flag bits are
    /// cleared from the extension and the user and both fields are validated.
    pub fn from_bytes(bytes: &[u8; 12]) -> (r: Result<FileId, Error>)
        ensures
            id_result_view(r) == spec_id_from_bytes(bytes@),
    {
        let user = bytes[0];
        let mut id = FileId { user, name: [SPACE; 8], extension: [SPACE; 3] };
        let mut i: usize = 0;
        while i < MAX_NAME_LEN
            invariant
                i <= 8,
                id.user == user,
                forall|j: int| 0 <= j < i ==> id.name@[j] == bytes@[j + 1],
            decreases 8 - i,
        {
            id.name[i] = bytes[1 + i];
            i = i + 1;
        }
        let mut i: usize = 0;
        while i < MAX_EXT_LEN
            invariant
                i <= 3,
                id.user == user,
                forall|j: int| 0 <= j < 8 ==> id.name@[j] == bytes@[j + 1],
                forall|j: int|
                    0 <= j < i ==> id.extension@[j] == if user == DELETED_USER {
                        bytes@[j + 9]
                    } else {
                        bytes@[j + 9] & 0x7F
                    },
            decreases 3 - i,
        {
            id.extension[i] = if user == DELETED_USER {
                bytes[9 + i]
            } else {
                bytes[9 + i] & 0x7F
            };
            i = i + 1;
        }
        assert(id.name@ =~= bytes@.subrange(1, 9));
        if user == DELETED_USER {
            assert(id.extension@ =~= bytes@.subrange(9, 12));
            return Ok(id);
        }
        assert(id.extension@ =~= unflagged(bytes@.subrange(9, 12)));
        if user > MAX_USER_ID {
            return Err(Error::InvalidUser { user });
        }
        if !field_matches(NAME_FIELD_PATTERN, &id.name) || !field_matches(
            EXT_FIELD_PATTERN,
            &id.extension,
        ) {
            return Err(Error::InvalidName);
        }
        Ok(id)
    }

    /// Writes the identity into the first 12 bytes of `bytes`.
    ///
    /// The user byte is always written. Name and extension are written only for
    /// a file that is not deleted: a deleted slot keeps its residual bytes.
    pub fn to_bytes(&self, bytes: &mut [u8])
        requires
            old(bytes)@.len() >= 12,
        ensures
            final(bytes)@.len() == old(bytes)@.len(),
            final(bytes)@[0] == self.user,
            self.user != DELETED_USER ==> final(bytes)@.subrange(1, 9) == self.name@,
            self.user != DELETED_USER ==> final(bytes)@.subrange(9, 12) == self.extension@,
            self.user == DELETED_USER ==> final(bytes)@.subrange(1, 12) == old(bytes)@.subrange(
                1,
                12,
            ),
            final(bytes)@.subrange(12, old(bytes)@.len() as int) == old(bytes)@.subrange(
                12,
                old(bytes)@.len() as int,
            ),
    {
        bytes[0] = self.user;
        if self.user != DELETED_USER {
            let mut i: usize = 0;
            while i < MAX_NAME_LEN
                invariant
                    i <= 8,
                    bytes@.len() == old(bytes)@.len(),
                    bytes@.len() >= 12,
                    bytes@[0] == self.user,
                    forall|j: int| 0 <= j < i ==> bytes@[j + 1] == self.name@[j],
                    forall|j: int| 9 <= j < bytes@.len() ==> bytes@[j] == old(bytes)@[j],
                decreases 8 - i,
            {
                bytes[1 + i] = self.name[i];
                i = i + 1;
            }
            let mut i: usize = 0;
            while i < MAX_EXT_LEN
                invariant
                    i <= 3,
                    bytes@.len() == old(bytes)@.len(),
                    bytes@.len() >= 12,
                    bytes@[0] == self.user,
                    forall|j: int| 0 <= j < 8 ==> bytes@[j + 1] == self.name@[j],
                    forall|j: int| 0 <= j < i ==> bytes@[j + 9] == self.extension@[j],
                    forall|j: int| 12 <= j < bytes@.len() ==> bytes@[j] == old(bytes)@[j],
                decreases 3 - i,
            {
                bytes[9 + i] = self.extension[i];
                i = i + 1;
            }
            assert(bytes@.subrange(1, 9) =~= self.name@);
            assert(bytes@.subrange(9, 12) =~= self.extension@);
        }
        assert(bytes@.subrange(12, bytes@.len() as int) =~= old(bytes)@.subrange(
            12,
            old(bytes)@.len() as int,
        ));
        assert(self.user == DELETED_USER ==> bytes@.subrange(1, 12) =~= old(bytes)@.subrange(
            1,
            12,
        ));
    }

    /// The display name: name and extension without their padding, joined by a dot.
    pub fn filename(&self) -> (r: String)
        ensures
            r@ == lossy_text(filename_bytes(self@)),
            is_ascii_text(filename_bytes(self@)) ==> r@ == ascii_text(filename_bytes(self@)),
    {
        let n = trimmed_len(&self.name);
        let e = trimmed_len(&self.extension);
        let mut out: Vec<u8> = Vec::new();
        let mut i: usize = 0;
        while i < n
            invariant
                n <= 8,
                i <= n,
                out@ == self.name@.subrange(0, i as int),
            decreases n - i,
        {
            out.push(self.name[i]);
            assert(out@ =~= self.name@.subrange(0, i + 1));
            i = i + 1;
        }
        out.push(DOT);
        let mut i: usize = 0;
        while i < e
            invariant
                e <= 3,
                n <= 8,
                i <= e,
                out@ == self.name@.subrange(0, n as int) + seq![DOT] + self.extension@.subrange(
                    0,
                    i as int,
                ),
            decreases e - i,
        {
            out.push(self.extension[i]);
            assert(out@ =~= self.name@.subrange(0, n as int) + seq![DOT]
                + self.extension@.subrange(0, i + 1));
            i = i + 1;
        }
        text_from_bytes(out.as_slice())
    }

    fn parse_filename(s: &[u8]) -> (r: Option<(&[u8], &[u8])>)
        ensures
            match split_filename(s@) {
                None => r is None,
                Some((n, e)) => match r {
                    Some((a, b)) => a@ == n && b@ == e,
                    None => false,
                },
            },
    {
        let mut d: usize = 0;
        while d < s.len() && s[d] != DOT
            invariant
                d <= s@.len(),
                forall|i: int| 0 <= i < d ==> s@[i] != DOT,
            decreases s@.len() - d,
        {
            d = d + 1;
        }
        if d == s.len() {
            assert(!exists|x: int| is_single_dot_at(s@, x));
            return None;
        }
        let mut j: usize = d + 1;
        let mut ascii = s[d] < 0x80;
        let mut k: usize = 0;
        while k < d
            invariant
                k <= d < s@.len(),
                ascii == forall|i: int| 0 <= i < k ==> is_ascii_byte(#[trigger] s@[i]),
            decreases d - k,
        {
            ascii = ascii && s[k] < 0x80;
            k = k + 1;
        }
        while j < s.len()
            invariant
                d < j <= s@.len(),
                s@[d as int] == DOT,
                forall|i: int| 0 <= i < d ==> s@[i] != DOT,
                forall|i: int| d < i < j ==> s@[i] != DOT,
                ascii == forall|i: int| 0 <= i < j ==> is_ascii_byte(#[trigger] s@[i]),
            decreases s@.len() - j,
        {
            if s[j] == DOT {
                assert(!exists|x: int| is_single_dot_at(s@, x)) by {
                    assert forall|x: int| !is_single_dot_at(s@, x) by {
                        if is_single_dot_at(s@, x) {
                            assert(s@[d as int] != DOT || s@[j as int] != DOT);
                        }
                    }
                }
                return None;
            }
            ascii = ascii && s[j] < 0x80;
            j = j + 1;
        }
        assert(is_single_dot_at(s@, d as int));
        let ghost c = choose|x: int| is_single_dot_at(s@, x);
        assert(c == d);
        if d > MAX_NAME_LEN || s.len() - d - 1 > MAX_EXT_LEN || !ascii {
            return None;
        }
        let name = &s[0..d];
        let extension = &s[d + 1..s.len()];
        Some((name, extension))
    }

    fn str_to_padded_bytes(dst: &mut [u8], n: &[u8], mode: FilenameMode)
        requires
            n@.len() <= old(dst)@.len(),
        ensures
            final(dst)@ == mapped_bytes(n@, mode) + old(dst)@.subrange(
                n@.len() as int,
                old(dst)@.len() as int,
            ),
    {
        let mut i: usize = 0;
        while i < n.len()
            invariant
                n@.len() <= old(dst)@.len(),
                dst@.len() == old(dst)@.len(),
                i <= n@.len(),
                forall|j: int| 0 <= j < i ==> dst@[j] == mapped_bytes(n@, mode)[j],
                forall|j: int| i <= j < dst@.len() ==> dst@[j] == old(dst)@[j],
            decreases n@.len() - i,
        {
            let b = n[i];
            dst[i] = match mode {
                FilenameMode::AsIs => b,
                FilenameMode::Normalized => if 0x61 <= b && b <= 0x7A {
                    b - 0x20
                } else {
                    b
                },
            };
            i = i + 1;
        }
        assert(dst@ =~= mapped_bytes(n@, mode) + old(dst)@.subrange(
            n@.len() as int,
            old(dst)@.len() as int,
        ));
    }
}

/// Construction of a file identity fails for a user above 15 (the deleted
/// marker among them), for a name without a dot or with more than one, for a
/// name or extension longer than 8 or 3 bytes, and for non-ASCII bytes.
pub proof fn lemma_new_with_filename_rejects(user: u8, f: Seq<u8>, mode: FilenameMode)
    requires
        ({
            ||| user > MAX_USER_ID
            ||| forall|i: int| 0 <= i < f.len() ==> #[trigger] f[i] != DOT
            ||| exists|i: int, j: int| 0 <= i < j < f.len() && #[trigger] f[i] == DOT && #[trigger] f[j] == DOT
            ||| exists|i: int| 0 <= i < f.len() && !is_ascii_byte(#[trigger] f[i])
            ||| exists|d: int| #[trigger] is_single_dot_at(f, d) && (d > MAX_NAME_LEN || f.len() - d - 1 > MAX_EXT_LEN)
        }),
    ensures
        spec_new_with_filename(user, f, mode) is Err,
{
    if user <= MAX_USER_ID {
        if exists|d: int| is_single_dot_at(f, d) {
            let c = choose|d: int| is_single_dot_at(f, d);
            if exists|i: int, j: int| 0 <= i < j < f.len() && #[trigger] f[i] == DOT && #[trigger] f[j] == DOT {
                let (i, j) = choose|i: int, j: int| 0 <= i < j < f.len() && #[trigger] f[i] == DOT && #[trigger] f[j] == DOT;
                assert(i == c || f[i] != DOT);
                assert(j == c || f[j] != DOT);
            }
            if forall|i: int| 0 <= i < f.len() ==> #[trigger] f[i] != DOT {
                assert(f[c] != DOT);
            }
            if exists|d: int| #[trigger] is_single_dot_at(f, d) && (d > MAX_NAME_LEN || f.len() - d - 1 > MAX_EXT_LEN) {
                let d = choose|d: int| #[trigger] is_single_dot_at(f, d) && (d > MAX_NAME_LEN || f.len() - d - 1 > MAX_EXT_LEN);
                assert(f[d] == DOT);
                assert(d == c);
            }
        }
    }
}

} // verus!
