//! File-system paths as text with `/` separators (Unix path semantics).
use crate::types::text::{last_index_of, lemma_last_index_of, spec_last_index_of};
use vstd::prelude::*;
use vstd::string::{StrSliceExecFns, StringExecFns};

verus! {

/// `base` joined with `seg`, as `Path::join` does on Unix: an absolute
/// `seg` replaces `base`, an empty `base` gives `seg`, and a single `/`
/// separates the two otherwise.
pub open spec fn spec_join(base: Seq<char>, seg: Seq<char>) -> Seq<char> {
    if seg.len() > 0 && seg[0] == '/' {
        seg
    } else if base.len() == 0 {
        seg
    } else if base.last() == '/' {
        base + seg
    } else {
        base + seq!['/'] + seg
    }
}

/// Joins `seg` onto `base`.
pub fn join(base: &str, seg: &str) -> (r: String)
    ensures
        r@ == spec_join(base@, seg@),
{
    let n = base.unicode_len();
    let m = seg.unicode_len();
    if m > 0 && seg.get_char(0) == '/' {
        return seg.to_owned();
    }
    if n == 0 {
        return seg.to_owned();
    }
    let mut r = base.to_owned();
    if base.get_char(n - 1) != '/' {
        r.append("/");
        proof { reveal_strlit("/"); }
    }
    r.append(seg);
    r
}

/// The path `p` with the extension of its last component set to `ext`, as
/// `Path::with_extension` does for a last component without a trailing `/`:
/// a `.` that does not start the component begins the old extension, which
/// is replaced; otherwise `.ext` is appended.
pub open spec fn spec_with_extension(p: Seq<char>, ext: Seq<char>) -> Seq<char> {
    let start = spec_last_index_of(p, '/') + 1;
    let name = p.subrange(start, p.len() as int);
    let dot = spec_last_index_of(name, '.');
    if dot > 0 {
        p.subrange(0, start + dot) + seq!['.'] + ext
    } else {
        p + seq!['.'] + ext
    }
}

/// Sets the extension of the last component of `p` to `ext`.
pub fn with_extension(p: &str, ext: &str) -> (r: String)
    ensures
        r@ == spec_with_extension(p@, ext@),
{
    proof { lemma_last_index_of(p@, '/'); }
    let n = p.unicode_len();
    let start = match last_index_of(p, '/') {
        Some(i) => i + 1,
        None => 0,
    };
    let name = p.substring_char(start, n);
    proof { lemma_last_index_of(name@, '.'); }
    let mut r = match last_index_of(name, '.') {
        Some(d) if d > 0 => p.substring_char(0, start + d).to_owned(),
        _ => p.to_owned(),
    };
    r.append(".");
    proof { reveal_strlit("."); }
    r.append(ext);
    r
}

} // verus!
