//! Command-line file arguments: a local path, or a file on the image written
//! `[user]:name` (the name may be a glob pattern, or empty for a directory).
use vstd::prelude::*;

use crate::error::Error;
use vstd::string::StringSliceAdditionalSpecFns;
use crate::file_id::MAX_USER_ID;
use crate::text::{lossy_text, text_from_bytes};

verus! {

/// What `str::trim` makes of a text: no leading or trailing white space.
pub uninterp spec fn trimmed(s: Seq<char>) -> Seq<char>;

/// Relies on str::trim: the result depends on the text alone, and holds no
/// more characters than the text.
#[verifier::external_body]
fn trim_text(s: &str) -> (r: String)
    ensures
        r@ == trimmed(s@),
        r@.len() <= s@.len(),
{
    s.trim().to_string()
}

pub const COLON: u8 = 0x3A;

pub const NEWLINE: u8 = 0x0A;

#[derive(Debug, Clone)]
pub enum FileArg {
    Local { path: String },
    Image { owner: u8, name: Option<String> },
}

pub open spec fn is_digit(b: u8) -> bool {
    0x30 <= b <= 0x39
}

/// Number of ASCII digits at the start of `b`.
pub open spec fn digit_run(b: Seq<u8>) -> nat
    decreases b.len(),
{
    if b.len() > 0 && is_digit(b[0]) {
        1 + digit_run(b.drop_first())
    } else {
        0
    }
}

/// The value of a string of decimal digits.
pub open spec fn decimal(ds: Seq<u8>) -> nat
    decreases ds.len(),
{
    if ds.len() == 0 {
        0
    } else {
        decimal(ds.drop_last()) * 10 + (ds.last() - 0x30) as nat
    }
}

/// Where the name of an image argument starts: after `digits:` or after a
/// leading `:`; `None` for a local path. A name never holds a line break.
pub open spec fn image_name_start(b: Seq<u8>) -> Option<int> {
    let d = digit_run(b) as int;
    if d < b.len() && b[d] == COLON && (forall|i: int| d < i < b.len() ==> #[trigger] b[i] != NEWLINE) {
        Some(d + 1)
    } else {
        None
    }
}

proof fn lemma_digit_run(b: Seq<u8>, k: int)
    requires
        0 <= k <= b.len(),
        forall|i: int| 0 <= i < k ==> is_digit(#[trigger] b[i]),
    ensures
        digit_run(b) == k + digit_run(b.subrange(k, b.len() as int)),
    decreases k,
{
    if k > 0 {
        lemma_digit_run(b.drop_first(), k - 1);
        assert(b.drop_first().subrange(k - 1, b.drop_first().len() as int) =~= b.subrange(k, b.len() as int));
    } else {
        assert(b.subrange(0, b.len() as int) =~= b);
    }
}

impl FileArg {
    /// Parses a command-line file argument: `N:name` or `:name` is a file on
    /// the image owned by user N (0 by default, at most 15), its name trimmed
    /// and `None` when empty; anything else is a local path, trimmed.
    pub fn parse(s: &str) -> (r: Result<FileArg, Error>)
        ensures
            ({
                let b = s.spec_bytes();
                match image_name_start(b) {
                    None => r matches Ok(FileArg::Local { path }) && path@ == trimmed(s@),
                    Some(start) => {
                        let owner = decimal(b.subrange(0, digit_run(b) as int));
                        let name = trimmed(lossy_text(b.subrange(start, b.len() as int)));
                        if owner > MAX_USER_ID {
                            r == Err::<FileArg, Error>(Error::InvalidOwner)
                        } else {
                            r matches Ok(FileArg::Image { owner: o, name: n }) && o == owner && (if name.len()
                                == 0 {
                                n is None
                            } else {
                                n matches Some(t) && t@ == name
                            })
                        }
                    },
                }
            }),
    {
        let b = s.as_bytes();
        let len = b.len();
        let mut d: usize = 0;
        let mut value: u32 = 0;
        while d < len && 0x30 <= b[d] && b[d] <= 0x39
            invariant
                d <= len,
                len == b@.len(),
                forall|i: int| 0 <= i < d ==> is_digit(#[trigger] b@[i]),
                value == (if decimal(b@.subrange(0, d as int)) > 256 {
                    256
                } else {
                    decimal(b@.subrange(0, d as int))
                }),
            decreases len - d,
        {
            assert(b@.subrange(0, d + 1).drop_last() =~= b@.subrange(0, d as int));
            let digit = (b[d] - 0x30) as u32;
            value = if value * 10 + digit > 256 {
                256
            } else {
                value * 10 + digit
            };
            d = d + 1;
        }
        proof {
            lemma_digit_run(b@, d as int);
            if d < len {
                assert(!is_digit(b@[d as int]));
                assert(digit_run(b@.subrange(d as int, len as int)) == 0);
            } else {
                assert(digit_run(b@.subrange(d as int, len as int)) == 0);
            }
        }
        if d == len || b[d] != COLON {
            assert(image_name_start(b@) is None);
            return Ok(FileArg::Local { path: trim_text(s) });
        }
        let mut i: usize = d + 1;
        while i < len
            invariant
                d < i <= len,
                len == b@.len(),
                b@ == s.spec_bytes(),
                digit_run(b@) == d,
                forall|k: int| d < k < i ==> #[trigger] b@[k] != NEWLINE,
            decreases len - i,
        {
            if b[i] == NEWLINE {
                assert(b@[i as int] == NEWLINE);
                assert(image_name_start(b@) is None);
                return Ok(FileArg::Local { path: trim_text(s) });
            }
            i = i + 1;
        }
        if value > MAX_USER_ID as u32 {
            return Err(Error::InvalidOwner);
        }
        let owner = value as u8;
        let rest = text_from_bytes(&b[d + 1..len]);
        let name = trim_text(rest.as_str());
        if name.as_str().is_empty() {
            Ok(FileArg::Image { owner, name: None })
        } else {
            Ok(FileArg::Image { owner, name: Some(name) })
        }
    }

    pub fn is_local(&self) -> (r: bool)
        ensures
            r == self is Local,
    {
        match self {
            FileArg::Local { .. } => true,
            FileArg::Image { .. } => false,
        }
    }

    /// Whether the argument names a directory: for a local path, what the
    /// local filesystem says (`local_is_dir`); on the image, an argument
    /// without a name.
    pub fn is_dir(&self, local_is_dir: bool) -> (r: bool)
        ensures
            r == match self {
                FileArg::Local { .. } => local_is_dir,
                FileArg::Image { name, .. } => name is None,
            },
    {
        match self {
            FileArg::Local { .. } => local_is_dir,
            FileArg::Image { owner: _, name } => name.is_none(),
        }
    }
}

} // verus!
