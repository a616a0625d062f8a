//! Store keys: trimmed, non-empty strings of at most [`MAX_KEY_LENGTH`] characters.
use crate::types::text::{spec_trim, trim};
use vstd::prelude::*;
use vstd::string::StrSliceExecFns;

verus! {

/// The maximal number of characters in a key.
pub const MAX_KEY_LENGTH: usize = 256;

/// Why a string was refused as a key.
#[derive(Debug, Clone, Copy, PartialEq, Eq)]
pub enum KeyError {
    /// The string is empty once trimmed.
    NotEmptyViolated,
    /// The trimmed string has more than [`MAX_KEY_LENGTH`] characters.
    LenCharMaxViolated,
}

/// A key of the store.
#[derive(Debug, PartialEq, Eq, PartialOrd, Ord, Hash)]
pub struct Key {
    inner: String,
}

impl View for Key {
    type V = Seq<char>;

    closed spec fn view(&self) -> Seq<char> {
        self.inner@
    }
}

/// The texts of a sequence of keys.
pub open spec fn keys_view(v: Seq<Key>) -> Seq<Seq<char>> {
    v.map_values(|k: Key| k@)
}

/// What a key's characters must satisfy.
pub open spec fn valid_key_chars(s: Seq<char>) -> bool {
    &&& s.len() > 0
    &&& s.len() <= MAX_KEY_LENGTH
    &&& spec_trim(s) == s
}

/// What `Key::try_new` gives for a string with characters `s`.
pub open spec fn spec_key_result(s: Seq<char>) -> Result<Seq<char>, KeyError> {
    let t = spec_trim(s);
    if t.len() == 0 {
        Err(KeyError::NotEmptyViolated)
    } else if t.len() > MAX_KEY_LENGTH {
        Err(KeyError::LenCharMaxViolated)
    } else {
        Ok(t)
    }
}

impl Clone for Key {
    fn clone(&self) -> (r: Self)
        ensures
            r == *self,
    {
        Key { inner: self.inner.clone() }
    }
}

impl Key {
    /// Key invariant: its characters are a valid key.
    pub open spec fn wf(&self) -> bool {
        valid_key_chars(self@)
    }

    /// Trims `s` and accepts it as a key if it is non-empty and short enough.
    pub fn try_new(s: String) -> (r: Result<Key, KeyError>)
        ensures
            match (r, spec_key_result(s@)) {
                (Ok(k), Ok(t)) => k@ == t && k.wf(),
                (Err(e1), Err(e2)) => e1 == e2,
                _ => false,
            },
    {
        Self::try_from(s.as_str())
    }

    /// Same as [`Key::try_new`], from a string slice.
    pub fn try_from(s: &str) -> (r: Result<Key, KeyError>)
        ensures
            match (r, spec_key_result(s@)) {
                (Ok(k), Ok(t)) => k@ == t && k.wf(),
                (Err(e1), Err(e2)) => e1 == e2,
                _ => false,
            },
    {
        let t = trim(s);
        let n = t.as_str().unicode_len();
        if n == 0 {
            Err(KeyError::NotEmptyViolated)
        } else if n > MAX_KEY_LENGTH {
            Err(KeyError::LenCharMaxViolated)
        } else {
            proof { crate::types::text::lemma_trim_idempotent(s@); }
            Ok(Key { inner: t })
        }
    }

    /// The key's text.
    pub fn as_str(&self) -> (r: &str)
        ensures
            r@ == self@,
    {
        self.inner.as_str()
    }

    /// Whether two keys hold the same text.
    pub fn same_as(&self, other: &Key) -> (r: bool)
        ensures
            r == (self@ == other@),
    {
        self.inner == other.inner
    }
}

} // verus!
