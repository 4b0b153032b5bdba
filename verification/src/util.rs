//! MD5 digests of strings and files, through the `md5`, `hex` and `fs-err`
//! crates.
use crate::errors::FSError;
use md5::Digest;
use std::io::Read;
use vstd::prelude::*;

verus! {

/// True of a lowercase hexadecimal digit.
pub open spec fn is_hex_char(c: char) -> bool {
    ('0' <= c && c <= '9') || ('a' <= c && c <= 'f')
}

/// True of a 32-character lowercase hexadecimal digest string.
pub open spec fn is_md5_hex(s: Seq<char>) -> bool {
    s.len() == 32 && forall|i: int| 0 <= i < 32 ==> is_hex_char(#[trigger] s[i])
}

/// The MD5 digest, as 32 lowercase hexadecimal characters, of the UTF-8
/// encoding of a text.  The digest is a function of the characters alone.
pub uninterp spec fn md5_of(s: Seq<char>) -> Seq<char>;

/// Relies on md5's `Md5::digest` (a 16-byte MD5 of the input bytes) and hex's
/// `encode` (two lowercase hexadecimal digits per input byte).
#[verifier::external_body]
pub fn md5_string(s: &str) -> (r: String)
    ensures
        r@ == md5_of(s@),
        is_md5_hex(r@),
{
    hex::encode(md5::Md5::digest(s))
}

/// Relies on fs-err's `File::open`, std's `Read::read`, md5's `Md5` and hex's
/// `encode`: streams the bytes of the file at `path` through an MD5 hasher.
/// Any open or read failure is reported as a digest error carrying `path`.
#[verifier::external_body]
pub fn md5_file(path: &str) -> (r: Result<String, FSError>)
    ensures
        r matches Ok(s) ==> is_md5_hex(s@),
        r matches Err(e) ==> e matches FSError::MD5FileError { path: p } && p@ == path@,
{
    let mut file = match fs_err::File::open(path) {
        Ok(f) => f,
        Err(_) => return Err(FSError::MD5FileError { path: path.to_string() }),
    };
    let mut hasher = md5::Md5::new();
    let mut buf = [0u8; 8192];
    loop {
        match file.read(&mut buf) {
            Ok(0) => return Ok(hex::encode(hasher.finalize())),
            Ok(k) => hasher.update(&buf[..k]),
            Err(_) => return Err(FSError::MD5FileError { path: path.to_string() }),
        }
    }
}

/// Check at run time that a string is a 32-character lowercase hexadecimal
/// digest.
pub fn check_md5_hex(s: &str) -> (r: bool)
    ensures
        r == is_md5_hex(s@),
{
    let n = s.unicode_len();
    if n != 32 {
        return false;
    }
    let mut i: usize = 0;
    while i < 32
        invariant
            s@.len() == 32,
            i <= 32,
            forall|j: int| 0 <= j < i ==> is_hex_char(#[trigger] s@[j]),
        decreases 32 - i,
    {
        let c = s.get_char(i);
        if !(('0' <= c && c <= '9') || ('a' <= c && c <= 'f')) {
            return false;
        }
        i = i + 1;
    }
    true
}

} // verus!
