//! Where a key's files live. Each key has a directory name, the hex BLAKE3
//! hash of its text, under which its files are kept:
//! - `content/{key_hash}.md`: its markdown content;
//! - `blobs/{key_hash}/{filename}`: its attachments;
//! - `thumbnails/{key_hash}/{filename}.thumb`: thumbnails of image attachments.
use crate::types::key::Key;
use crate::types::paths::{join, spec_join, spec_with_extension, with_extension};
use crate::types::text::{last_index_of, lemma_last_index_of, spec_last_index_of};
use vstd::prelude::*;
use vstd::string::StrSliceExecFns;
use vstd::utf8::encode_utf8;

verus! {

/// The lowercase hex BLAKE3 digest of `data`.
pub uninterp spec fn blake3_hex(data: Seq<u8>) -> Seq<char>;

/// A lowercase hexadecimal digit.
pub open spec fn is_lower_hex(c: char) -> bool {
    ('0' <= c && c <= '9') || ('a' <= c && c <= 'f')
}

/// `blake3::hash(data).to_hex()`: the digest of `data` as 64 lowercase hex
/// digits (the crate writes each of the 32 digest bytes as two digits of
/// "0123456789abcdef").
#[verifier::external_body]
fn blake3_hash_hex(data: &[u8]) -> (r: String)
    ensures
        r@ == blake3_hex(data@),
        r@.len() == 64,
        forall|i: int| 0 <= i < r@.len() ==> is_lower_hex(#[trigger] r@[i]),
{
    blake3::hash(data).to_hex().as_str().to_string()
}

/// The directory name of a key's files: the hex BLAKE3 hash of its text.
pub fn key_to_path(key: &Key) -> (r: String)
    ensures
        r@ == blake3_hex(encode_utf8(key@)),
        r@.len() == 64,
        forall|i: int| 0 <= i < r@.len() ==> is_lower_hex(#[trigger] r@[i]),
{
    blake3_hash_hex(key.as_str().as_bytes())
}

/// The two parts of a blob's name in the blob store: its first two
/// characters (the directory) and the rest (the file); a name shorter than
/// two characters is all directory.
pub fn blob_dirs(hash: &str) -> (r: (String, String))
    ensures
        r.0@ == hash@.subrange(0, if hash@.len() < 2 { hash@.len() as int } else { 2 }),
        r.1@ == hash@.subrange(
            if hash@.len() < 2 { hash@.len() as int } else { 2 },
            hash@.len() as int,
        ),
{
    let n = hash.unicode_len();
    let k: usize = if n < 2 {
        n
    } else {
        2
    };
    (hash.substring_char(0, k).to_owned(), hash.substring_char(k, n).to_owned())
}

/// The name of the blob holding `data` in the blob store, in its two
/// parts: the hex BLAKE3 digest of the data, split after two digits.
pub fn blob_name(data: &[u8]) -> (r: (String, String))
    ensures
        r.0@ + r.1@ == blake3_hex(data@),
        r.0@.len() == 2,
        r.1@.len() == 62,
{
    let hash = blake3_hash_hex(data);
    let r = blob_dirs(hash.as_str());
    proof {
        assert(r.0@ + r.1@ =~= hash@);
    }
    r
}

/// The path of an attachment of `key` under the data directory `base_path`:
/// `base_path/blobs/{key_hash}/{filename}`.
pub fn attachment_blob_path(base_path: &str, key: &Key, filename: &str) -> (r: String)
    ensures
        r@ == spec_join(
            spec_join(spec_join(base_path@, "blobs"@), blake3_hex(encode_utf8(key@))),
            filename@,
        ),
{
    let key_hash = key_to_path(key);
    let blobs = join(base_path, "blobs");
    let dir = join(blobs.as_str(), key_hash.as_str());
    join(dir.as_str(), filename)
}

/// What follows the last `.` of a file name (all of it when it has none).
pub open spec fn extension_of(name: Seq<char>) -> Seq<char> {
    name.subrange(spec_last_index_of(name, '.') + 1, name.len() as int)
}

/// A character with ASCII upper case turned to lower case.
pub open spec fn ascii_lower_char(c: char) -> char {
    if 'A' <= c && c <= 'Z' {
        ((c as int) + 32) as char
    } else {
        c
    }
}

/// A text with ASCII upper case turned to lower case.
pub open spec fn ascii_lower(s: Seq<char>) -> Seq<char> {
    s.map_values(|c: char| ascii_lower_char(c))
}

/// Whether a file name has an extension (a `.` and what follows it) that,
/// in ASCII lower case, is one of the image formats thumbnails are made of.
pub open spec fn is_image_name(name: Seq<char>) -> bool {
    spec_last_index_of(name, '.') >= 0 && is_image_extension(ascii_lower(extension_of(name)))
}

/// An extension (in lower case) of the image formats thumbnails are made of.
pub open spec fn is_image_extension(e: Seq<char>) -> bool {
    e == "png"@ || e == "jpg"@ || e == "jpeg"@ || e == "gif"@ || e == "webp"@
}

/// Whether `s` in ASCII lower case is `lower`.
fn eq_ascii_lower(s: &str, lower: &str) -> (r: bool)
    ensures
        r == (ascii_lower(s@) == lower@),
{
    let n = s.unicode_len();
    if n != lower.unicode_len() {
        return false;
    }
    let mut i: usize = 0;
    while i < n
        invariant
            n == s@.len(),
            n == lower@.len(),
            i <= n,
            forall|j: int| 0 <= j < i ==> ascii_lower_char(s@[j]) == lower@[j],
        decreases n - i,
    {
        let c = s.get_char(i);
        let lc = if 'A' <= c && c <= 'Z' {
            ((c as u8) + 32) as char
        } else {
            c
        };
        if lc != lower.get_char(i) {
            proof {
                assert(ascii_lower(s@)[i as int] != lower@[i as int]);
            }
            return false;
        }
        i = i + 1;
    }
    proof {
        assert(ascii_lower(s@) =~= lower@);
    }
    true
}

/// Paths of the directories that hold content, attachments and thumbnails.
#[derive(Debug, Clone)]
pub struct FileStorage {
    pub content_path: String,
    pub blobs_path: String,
    pub thumbnails_path: String,
}

impl FileStorage {
    /// The path of a key's content file: `{content_path}/{key_hash}.md`.
    pub fn content_file_path(&self, key_hash: &str) -> (r: String)
        ensures
            r@ == spec_with_extension(spec_join(self.content_path@, key_hash@), "md"@),
    {
        let p = join(self.content_path.as_str(), key_hash);
        with_extension(p.as_str(), "md")
    }

    /// The path of an attachment: `{blobs_path}/{key_hash}/{filename}`.
    pub fn attachment_path(&self, key_hash: &str, filename: &str) -> (r: String)
        ensures
            r@ == spec_join(spec_join(self.blobs_path@, key_hash@), filename@),
    {
        let dir = join(self.blobs_path.as_str(), key_hash);
        join(dir.as_str(), filename)
    }

    /// The path of a thumbnail: `{thumbnails_path}/{key_hash}/{filename}.thumb`.
    pub fn thumbnail_path(&self, key_hash: &str, filename: &str) -> (r: String)
        ensures
            r@ == spec_join(spec_join(self.thumbnails_path@, key_hash@), filename@ + ".thumb"@),
    {
        let dir = join(self.thumbnails_path.as_str(), key_hash);
        let mut name = filename.to_owned();
        name.append(".thumb");
        join(dir.as_str(), name.as_str())
    }

    /// The path of a thumbnail relative to the thumbnails directory:
    /// `{key_hash}/{filename}.thumb`.
    pub fn thumbnail_rel_path(key_hash: &str, filename: &str) -> (r: String)
        ensures
            r@ == spec_join(key_hash@, filename@ + ".thumb"@),
    {
        let mut name = filename.to_owned();
        name.append(".thumb");
        join(key_hash, name.as_str())
    }

    /// Whether a file name has the extension of an image format thumbnails
    /// are made of (png, jpg, jpeg, gif, webp), in any ASCII case. A name
    /// without a `.` has no extension.
    pub fn is_supported_image(filename: &str) -> (r: bool)
        ensures
            r == is_image_name(filename@),
    {
        proof {
            lemma_last_index_of(filename@, '.');
        }
        let n = filename.unicode_len();
        let start = match last_index_of(filename, '.') {
            Some(i) => i + 1,
            None => return false,
        };
        let ext = filename.substring_char(start, n);
        eq_ascii_lower(ext, "png") || eq_ascii_lower(ext, "jpg") || eq_ascii_lower(ext, "jpeg")
            || eq_ascii_lower(ext, "gif") || eq_ascii_lower(ext, "webp")
    }
}

} // verus!
