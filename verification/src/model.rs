//! Path-shaped keys (`project/config/theme`), clipboard values and the
//! time-driven lifecycle of entries.
use crate::error::{CoreError, ValidationError};
use crate::types::text::{
    contains_char, has_double, spec_trim, str_eq, trim, last_index_of, lemma_last_index_of, spec_has_double,
    lemma_first_index_of_bounds, spec_first_index_of,
    spec_last_index_of, spec_split, split, starts_with,
};
use vstd::prelude::*;
use vstd::string::StrSliceExecFns;

verus! {

/// A key using path-based hierarchy, such as `project/config/theme`.
#[derive(Debug, PartialEq, Eq, Hash)]
pub struct Key(String);

impl View for Key {
    type V = Seq<char>;

    closed spec fn view(&self) -> Seq<char> {
        self.0@
    }
}

impl Clone for Key {
    fn clone(&self) -> (r: Self)
        ensures
            r == *self,
    {
        Key(self.0.clone())
    }
}

/// Which rule a path key breaks, if any.
pub enum PathKeyFault {
    Empty,
    SlashAtEnd,
    DoubleSlash,
}

/// The first rule that `s` breaks as a path key.
pub open spec fn path_key_fault(s: Seq<char>) -> Option<PathKeyFault> {
    if s.len() == 0 {
        Some(PathKeyFault::Empty)
    } else if s[0] == '/' || s.last() == '/' {
        Some(PathKeyFault::SlashAtEnd)
    } else if spec_has_double(s, '/') {
        Some(PathKeyFault::DoubleSlash)
    } else {
        None
    }
}

/// The parent of the path `s`: all before its last `/`.
pub open spec fn spec_parent(s: Seq<char>) -> Option<Seq<char>> {
    let i = spec_last_index_of(s, '/');
    if i < 0 {
        None
    } else {
        Some(s.subrange(0, i))
    }
}

/// The last segment of the path `s`.
pub open spec fn spec_name(s: Seq<char>) -> Seq<char> {
    s.subrange(spec_last_index_of(s, '/') + 1, s.len() as int)
}

/// `s` is `p`, a `/`, and more.
pub open spec fn spec_is_descendant(s: Seq<char>, p: Seq<char>) -> bool {
    &&& s.len() > p.len()
    &&& s.subrange(0, p.len() as int) == p
    &&& s[p.len() as int] == '/'
}

/// `s` is `p`, a `/`, and a last segment without `/`.
pub open spec fn spec_is_child(s: Seq<char>, p: Seq<char>) -> bool {
    &&& spec_is_descendant(s, p)
    &&& !s.subrange(p.len() as int + 1, s.len() as int).contains('/')
}

/// The message that `Key::new` gives for a broken rule.
pub open spec fn fault_message(f: PathKeyFault) -> Seq<char> {
    match f {
        PathKeyFault::Empty => "Key cannot be empty"@,
        PathKeyFault::SlashAtEnd => "Key cannot start or end with '/'"@,
        PathKeyFault::DoubleSlash => "Key cannot contain consecutive slashes"@,
    }
}

/// The parent of a valid path key is a valid key, and the key is its child;
/// a valid key is a descendant of each key it is a child of.
pub proof fn lemma_parent_is_child(s: Seq<char>)
    requires
        path_key_fault(s) is None,
        spec_parent(s) is Some,
    ensures
        path_key_fault(spec_parent(s)->0) is None,
        spec_is_child(s, spec_parent(s)->0),
        spec_is_descendant(s, spec_parent(s)->0),
{
    lemma_last_index_of(s, '/');
    let i = spec_last_index_of(s, '/');
    let p = s.subrange(0, i);
    assert(i > 0);
    assert(i < s.len() - 1);
    assert(s.subrange(0, p.len() as int) =~= p);
    let rest = s.subrange(i + 1, s.len() as int);
    assert(!rest.contains('/')) by {
        if rest.contains('/') {
            let k = choose|k: int| 0 <= k < rest.len() && rest[k] == '/';
            assert(s[i + 1 + k] == '/');
        }
    }
    assert(p.last() != '/') by {
        if p.last() == '/' {
            assert(s[i - 1] == '/' && s[i] == '/');
            assert(spec_has_double(s, '/'));
        }
    }
    assert(!spec_has_double(p, '/')) by {
        if spec_has_double(p, '/') {
            let k = choose|k: int| 0 <= k && k + 1 < p.len() && #[trigger] p[k] == '/' && p[k + 1] == '/';
            assert(s[k] == '/' && s[k + 1] == '/');
            assert(spec_has_double(s, '/'));
        }
    }
}

/// The text of a valid key is not empty, neither starts nor ends with `/`
/// and holds no `//`; `Key::new` accepts it (and gives a key with this
/// text), and so it accepts the parent of a valid key.
pub proof fn lemma_key_text(s: Seq<char>)
    requires
        path_key_fault(s) is None,
    ensures
        s.len() > 0,
        s[0] != '/',
        s.last() != '/',
        !spec_has_double(s, '/'),
        spec_parent(s) matches Some(p) ==> path_key_fault(p) is None,
{
    if spec_parent(s) is Some {
        lemma_parent_is_child(s);
    }
}

/// The name of a valid key is its last segment: not empty, without `/`,
/// the whole key when it has no parent, and otherwise what follows the
/// parent and a `/`.
pub proof fn lemma_name_and_parent(s: Seq<char>)
    requires
        path_key_fault(s) is None,
    ensures
        spec_name(s).len() > 0,
        !spec_name(s).contains('/'),
        s.subrange(s.len() - spec_name(s).len(), s.len() as int) == spec_name(s),
        match spec_parent(s) {
            None => spec_name(s) == s,
            Some(p) => p + seq!['/'] + spec_name(s) == s,
        },
{
    lemma_last_index_of(s, '/');
    let i = spec_last_index_of(s, '/');
    let nm = spec_name(s);
    if i >= 0 {
        assert(i < s.len() - 1);
    }
    assert(!nm.contains('/')) by {
        if nm.contains('/') {
            let k = choose|k: int| 0 <= k < nm.len() && nm[k] == '/';
            assert(s[i + 1 + k] == '/');
        }
    }
    assert(s.subrange(s.len() - nm.len(), s.len() as int) =~= nm);
    if i < 0 {
        assert(nm =~= s);
    } else {
        assert(s.subrange(0, i) + seq!['/'] + nm =~= s);
    }
}

/// The segments `v` joined with `c` between them.
pub open spec fn spec_join_with(v: Seq<Seq<char>>, c: char) -> Seq<char>
    decreases v.len(),
{
    if v.len() == 0 {
        Seq::empty()
    } else if v.len() == 1 {
        v[0]
    } else {
        v[0] + seq![c] + spec_join_with(v.drop_first(), c)
    }
}

/// Splitting on `c` and joining with `c` gives the text back; there is at
/// least one segment, one more than the text holds `c`s counted by
/// segments; for a valid key no segment is empty or holds `/`.
pub proof fn lemma_segments_join(s: Seq<char>, c: char)
    ensures
        spec_split(s, c).len() >= 1,
        spec_join_with(spec_split(s, c), c) == s,
        forall|j: int| 0 <= j < spec_split(s, c).len() ==> !(#[trigger] spec_split(s, c)[j]).contains(c),
        c == '/' && path_key_fault(s) is None ==> forall|j: int|
            0 <= j < spec_split(s, c).len() ==> (#[trigger] spec_split(s, c)[j]).len() > 0,
    decreases s.len(),
{
    lemma_first_index_of_bounds(s, c);
    let i = spec_first_index_of(s, c);
    if i < 0 {
        assert(spec_split(s, c) == seq![s]);
    } else {
        let head = s.subrange(0, i);
        let rest = s.subrange(i + 1, s.len() as int);
        lemma_segments_join(rest, c);
        let sr = spec_split(rest, c);
        assert(spec_split(s, c) == seq![head] + sr);
        let v = seq![head] + sr;
        assert(v.drop_first() =~= sr);
        assert(spec_join_with(v, c) == head + seq![c] + spec_join_with(sr, c));
        assert(head + seq![c] + rest =~= s);
        assert(!head.contains(c)) by {
            if head.contains(c) {
                let k = choose|k: int| 0 <= k < head.len() && head[k] == c;
                assert(s[k] == c);
            }
        }
        assert forall|j: int| 0 <= j < v.len() implies !(#[trigger] v[j]).contains(c) by {
            if j > 0 {
                assert(v[j] == sr[j - 1]);
            }
        }
        if c == '/' && path_key_fault(s) is None {
            assert(i > 0);
            assert(rest.len() > 0);
            assert(rest[0] != '/') by {
                assert(s[i] == '/' && s[i + 1] == rest[0]);
                if rest[0] == '/' {
                    assert(spec_has_double(s, '/'));
                }
            }
            assert(rest.last() == s.last());
            assert(!spec_has_double(rest, '/')) by {
                if spec_has_double(rest, '/') {
                    let k = choose|k: int|
                        0 <= k && k + 1 < rest.len() && #[trigger] rest[k] == '/' && rest[k + 1] == '/';
                    assert(s[i + 1 + k] == '/' && s[i + 2 + k] == '/');
                    assert(spec_has_double(s, '/'));
                }
            }
            assert(path_key_fault(rest) is None);
            assert forall|j: int| 0 <= j < v.len() implies (#[trigger] v[j]).len() > 0 by {
                if j > 0 {
                    assert(v[j] == sr[j - 1]);
                }
            }
        }
    }
}

/// How many times `c` occurs in `s`.
pub open spec fn count_char(s: Seq<char>, c: char) -> nat
    decreases s.len(),
{
    if s.len() == 0 {
        0
    } else {
        (if s[0] == c {
            1nat
        } else {
            0nat
        }) + count_char(s.drop_first(), c)
    }
}

/// Counting over a concatenation adds the counts.
proof fn lemma_count_concat(a: Seq<char>, b: Seq<char>, c: char)
    ensures
        count_char(a + b, c) == count_char(a, c) + count_char(b, c),
    decreases a.len(),
{
    if a.len() > 0 {
        lemma_count_concat(a.drop_first(), b, c);
        assert((a + b).drop_first() =~= a.drop_first() + b);
        assert((a + b)[0] == a[0]);
    } else {
        assert(a + b =~= b);
    }
}

/// A text without `c` counts no `c`.
proof fn lemma_count_none(a: Seq<char>, c: char)
    requires
        !a.contains(c),
    ensures
        count_char(a, c) == 0,
    decreases a.len(),
{
    if a.len() > 0 {
        assert(a[0] != c);
        assert(!a.drop_first().contains(c)) by {
            if a.drop_first().contains(c) {
                let k = choose|k: int| 0 <= k < a.drop_first().len() && a.drop_first()[k] == c;
                assert(a[k + 1] == c);
            }
        }
        lemma_count_none(a.drop_first(), c);
    }
}

/// Splitting on `c` gives one segment more than there are `c`s, and the
/// last segment is what follows the last `c` (for a key and `/`: its
/// name).
pub proof fn lemma_segments_count_and_last(s: Seq<char>, c: char)
    ensures
        spec_split(s, c).len() == count_char(s, c) + 1,
        spec_split(s, c).last() == s.subrange(spec_last_index_of(s, c) + 1, s.len() as int),
        c == '/' ==> spec_split(s, c).last() == spec_name(s),
    decreases s.len(),
{
    lemma_first_index_of_bounds(s, c);
    lemma_last_index_of(s, c);
    let i = spec_first_index_of(s, c);
    let l = spec_last_index_of(s, c);
    if i < 0 {
        assert(spec_split(s, c) == seq![s]);
        lemma_count_none(s, c);
        if l >= 0 {
            assert(s.contains(c)) by {
                assert(s[l] == c);
            }
        }
        assert(s.subrange(l + 1, s.len() as int) =~= s);
    } else {
        let head = s.subrange(0, i);
        let rest = s.subrange(i + 1, s.len() as int);
        lemma_segments_count_and_last(rest, c);
        lemma_last_index_of(rest, c);
        let sr = spec_split(rest, c);
        assert(spec_split(s, c) == seq![head] + sr);
        assert((seq![head] + sr).last() == sr.last());
        assert(!head.contains(c)) by {
            if head.contains(c) {
                let k = choose|k: int| 0 <= k < head.len() && head[k] == c;
                assert(s[k] == c);
            }
        }
        lemma_count_none(head, c);
        assert(s =~= head + (seq![c] + rest));
        lemma_count_concat(head, seq![c] + rest, c);
        lemma_count_concat(seq![c], rest, c);
        assert(count_char(seq![c], c) == 1) by {
            assert(seq![c].drop_first() =~= Seq::<char>::empty());
            assert(count_char(Seq::<char>::empty(), c) == 0);
            assert(count_char(seq![c].drop_first(), c) == 0);
        }
        let lr = spec_last_index_of(rest, c);
        let cand = if lr >= 0 {
            i + 1 + lr
        } else {
            i
        };
        assert(s[cand] == c) by {
            if lr >= 0 {
                assert(s[i + 1 + lr] == rest[lr]);
            }
        }
        assert forall|k: int| cand < k < s.len() implies s[k] != c by {
            assert(s[k] == rest[k - i - 1]);
        }
        if l > cand {
            assert(s[l] == c);
        }
        if l < cand {
            assert(s[cand] != c);
        }
        assert(l == cand);
        assert(s.subrange(l + 1, s.len() as int) =~= rest.subrange(lr + 1, rest.len() as int));
    }
}

fn invalid_key(msg: &str) -> (r: CoreError)
    ensures
        r matches CoreError::Validation(ValidationError::InvalidKey(m)) && m@ == msg@,
{
    CoreError::Validation(ValidationError::InvalidKey(msg.to_owned()))
}

impl Key {
    /// Creates a key from a path, refusing empty paths, a `/` at either end
    /// and consecutive slashes.
    pub fn new(path: &str) -> (r: Result<Key, CoreError>)
        ensures
            r is Ok <==> path_key_fault(path@) is None,
            r matches Ok(k) ==> k@ == path@,
            r matches Err(e) ==> (e matches CoreError::Validation(ValidationError::InvalidKey(m))
                && m@ == fault_message(path_key_fault(path@)->0)),
    {
        match Self::validate(path) {
            Ok(()) => Ok(Key(path.to_owned())),
            Err(e) => Err(e),
        }
    }

    /// Checks the rules of [`Key::new`].
    pub fn validate(path: &str) -> (r: Result<(), CoreError>)
        ensures
            r is Ok <==> path_key_fault(path@) is None,
            r matches Err(e) ==> (e matches CoreError::Validation(ValidationError::InvalidKey(m))
                && m@ == fault_message(path_key_fault(path@)->0)),
    {
        let n = path.unicode_len();
        if n == 0 {
            return Err(invalid_key("Key cannot be empty"));
        }
        if path.get_char(0) == '/' || path.get_char(n - 1) == '/' {
            return Err(invalid_key("Key cannot start or end with '/'"));
        }
        if has_double(path, '/') {
            return Err(invalid_key("Key cannot contain consecutive slashes"));
        }
        Ok(())
    }

    /// The key's text.
    pub fn as_str(&self) -> (r: &str)
        ensures
            r@ == self@,
    {
        self.0.as_str()
    }

    /// The key without its last segment, if it has more than one.
    pub fn parent(&self) -> (r: Option<Key>)
        ensures
            match (r, spec_parent(self@)) {
                (Some(k), Some(p)) => k@ == p,
                (None, None) => true,
                _ => false,
            },
    {
        proof { lemma_last_index_of(self@, '/'); }
        match last_index_of(self.0.as_str(), '/') {
            Some(i) => Some(Key(self.0.as_str().substring_char(0, i).to_owned())),
            None => None,
        }
    }

    /// Whether this key is `parent` followed by one more segment.
    pub fn is_child_of(&self, parent: &Key) -> (r: bool)
        ensures
            r == spec_is_child(self@, parent@),
    {
        if !self.is_descendant_of(parent) {
            return false;
        }
        let n = self.0.as_str().unicode_len();
        let m = parent.0.as_str().unicode_len();
        let rest = self.0.as_str().substring_char(m + 1, n);
        !contains_char(rest, '/')
    }

    /// Whether this key lies below `ancestor` in the hierarchy.
    pub fn is_descendant_of(&self, ancestor: &Key) -> (r: bool)
        ensures
            r == spec_is_descendant(self@, ancestor@),
    {
        let s = self.0.as_str();
        let a = ancestor.0.as_str();
        let n = s.unicode_len();
        let m = a.unicode_len();
        if m >= n {
            return false;
        }
        starts_with(s, a) && s.get_char(m) == '/'
    }

    /// The last segment of the key.
    pub fn name(&self) -> (r: &str)
        ensures
            r@ == spec_name(self@),
    {
        proof { lemma_last_index_of(self@, '/'); }
        let s = self.0.as_str();
        let n = s.unicode_len();
        match last_index_of(s, '/') {
            Some(i) => s.substring_char(i + 1, n),
            None => s.substring_char(0, n),
        }
    }

    /// All segments of the key.
    pub fn segments(&self) -> (r: Vec<String>)
        ensures
            r@.map_values(|x: String| x@) == spec_split(self@, '/'),
    {
        split(self.0.as_str(), '/')
    }
}

} // verus!

verus! {

/// Rich format types.
#[derive(Debug, PartialEq, Eq)]
pub enum RichFormat {
    Html,
    Rtf,
    Png,
    Jpeg,
    Pdf,
    Binary { mime_type: String },
}

/// The MIME type of a rich format.
pub open spec fn spec_mime_type(f: RichFormat) -> Seq<char> {
    match f {
        RichFormat::Html => "text/html"@,
        RichFormat::Rtf => "application/rtf"@,
        RichFormat::Png => "image/png"@,
        RichFormat::Jpeg => "image/jpeg"@,
        RichFormat::Pdf => "application/pdf"@,
        RichFormat::Binary { mime_type } => mime_type@,
    }
}

/// The format that a MIME type names.
pub open spec fn spec_from_mime_type(m: Seq<char>) -> RichFormat {
    if m == "text/html"@ {
        RichFormat::Html
    } else if m == "application/rtf"@ {
        RichFormat::Rtf
    } else if m == "image/png"@ {
        RichFormat::Png
    } else if m == "image/jpeg"@ || m == "image/jpg"@ {
        RichFormat::Jpeg
    } else if m == "application/pdf"@ {
        RichFormat::Pdf
    } else {
        RichFormat::Binary { mime_type: arbitrary() }
    }
}

impl RichFormat {
    /// The MIME type of this format.
    pub fn mime_type(&self) -> (r: &str)
        ensures
            r@ == spec_mime_type(*self),
    {
        match self {
            RichFormat::Html => "text/html",
            RichFormat::Rtf => "application/rtf",
            RichFormat::Png => "image/png",
            RichFormat::Jpeg => "image/jpeg",
            RichFormat::Pdf => "application/pdf",
            RichFormat::Binary { mime_type } => mime_type.as_str(),
        }
    }

    /// The format for a MIME type; unknown types become `Binary`.
    pub fn from_mime_type(mime: &str) -> (r: RichFormat)
        ensures
            match r {
                RichFormat::Binary { mime_type } => spec_from_mime_type(mime@) is Binary
                    && mime_type@ == mime@,
                _ => r == spec_from_mime_type(mime@),
            },
    {
        if str_eq(mime, "text/html") {
            RichFormat::Html
        } else if str_eq(mime, "application/rtf") {
            RichFormat::Rtf
        } else if str_eq(mime, "image/png") {
            RichFormat::Png
        } else if str_eq(mime, "image/jpeg") || str_eq(mime, "image/jpg") {
            RichFormat::Jpeg
        } else if str_eq(mime, "application/pdf") {
            RichFormat::Pdf
        } else {
            RichFormat::Binary { mime_type: mime.to_owned() }
        }
    }
}

/// Naming a format by its MIME type and reading the type back gives the
/// format (an unknown type gives `Binary`), and a known MIME type other
/// than the alias `image/jpg` is the type of the format it names.
pub proof fn lemma_mime_round_trip(f: RichFormat, m: Seq<char>)
    ensures
        !(f is Binary) ==> spec_from_mime_type(spec_mime_type(f)) == f,
        !(spec_from_mime_type(m) is Binary) && m != "image/jpg"@ ==> spec_mime_type(
            spec_from_mime_type(m),
        ) == m,
{
    reveal_strlit("text/html");
    reveal_strlit("application/rtf");
    reveal_strlit("image/png");
    reveal_strlit("image/jpeg");
    reveal_strlit("image/jpg");
    reveal_strlit("application/pdf");
    assert("text/html"@[0] != "application/rtf"@[0]);
    assert("text/html"@[0] != "image/png"@[0]);
    assert("application/rtf"@[12] != "application/pdf"@[12]);
    assert("image/png"@[6] != "image/jpg"@[6]);
    assert("text/html"@ != "application/rtf"@);
    assert("text/html"@ != "image/png"@);
    assert("text/html"@ != "image/jpeg"@);
    assert("text/html"@ != "image/jpg"@);
    assert("text/html"@ != "application/pdf"@);
    assert("application/rtf"@ != "image/png"@);
    assert("application/rtf"@ != "image/jpeg"@);
    assert("application/rtf"@ != "image/jpg"@);
    assert("application/rtf"@ != "application/pdf"@);
    assert("image/png"@ != "image/jpeg"@);
    assert("image/png"@ != "image/jpg"@);
    assert("image/png"@ != "application/pdf"@);
    assert("image/jpeg"@[0] != "application/pdf"@[0]);
    assert("image/jpeg"@ != "application/pdf"@);
    assert("image/jpg"@ != "application/pdf"@);
}

/// How rich data is stored.
#[derive(Debug)]
pub enum RichStorage {
    /// Stored inline in the database.
    Inline(Vec<u8>),
    /// Stored as a content-addressed blob.
    Blob { hash: String, size: u64 },
    /// A link to an outside file.
    Link { path: String },
}

/// Rich data with its format and storage.
#[derive(Debug)]
pub struct RichData {
    pub format: RichFormat,
    pub storage: RichStorage,
}

/// A stored value: optional plain text and optional rich content.
#[derive(Debug)]
pub struct Value {
    pub plain_text: Option<String>,
    pub rich: Option<RichData>,
}

/// Text that is kept as plain text: not blank.
pub open spec fn meaningful_text(t: Seq<char>) -> bool {
    spec_trim(t).len() > 0
}

impl Value {
    /// A plain-text value; blank text gives no plain text.
    pub fn plain_text(text: &str) -> (r: Value)
        ensures
            r.rich is None,
            match r.plain_text {
                Some(t) => t@ == text@ && meaningful_text(text@),
                None => !meaningful_text(text@),
            },
    {
        let t = trim(text);
        let plain_text = if t.as_str().unicode_len() == 0 {
            None
        } else {
            Some(text.to_owned())
        };
        Value { plain_text, rich: None }
    }

    /// A value with rich content; blank plain text is dropped.
    pub fn rich(format: RichFormat, data: RichData, plain_text: Option<String>) -> (r: Value)
        ensures
            r.rich == Some(data),
            match plain_text {
                Some(t) => if meaningful_text(t@) {
                    r.plain_text == Some(t)
                } else {
                    r.plain_text is None
                },
                None => r.plain_text is None,
            },
    {
        let plain_text = match plain_text {
            Some(t) => {
                let tt = trim(t.as_str());
                if tt.as_str().unicode_len() == 0 {
                    None
                } else {
                    Some(t)
                }
            },
            None => None,
        };
        Value { plain_text, rich: Some(data) }
    }

    /// Whether the value has no content at all.
    pub fn is_empty(&self) -> (r: bool)
        ensures
            r == (self.plain_text is None && self.rich is None),
    {
        self.plain_text.is_none() && self.rich.is_none()
    }

    /// Whether the value has plain text.
    pub fn has_plain_text(&self) -> (r: bool)
        ensures
            r == self.plain_text is Some,
    {
        self.plain_text.is_some()
    }

    /// Whether the value has rich content.
    pub fn has_rich(&self) -> (r: bool)
        ensures
            r == self.rich is Some,
    {
        self.rich.is_some()
    }
}

/// Lifecycle state of an entry.
#[derive(Debug, Clone, Copy, PartialEq, Eq)]
pub enum Lifecycle {
    Active,
    Trash,
    Purged,
}

/// A UTC instant: seconds since the Unix epoch (negative before it) and
/// nanoseconds within the second (above 999_999_999 only in a leap second).
#[derive(Debug, Clone, Copy, PartialEq, Eq)]
pub struct UtcTime {
    pub secs: i64,
    pub nanos: u32,
}

/// `a` is not later than `b`.
pub open spec fn utc_le(a: UtcTime, b: UtcTime) -> bool {
    a.secs < b.secs || (a.secs == b.secs && a.nanos <= b.nanos)
}

impl UtcTime {
    /// Whether `self` is not later than `other`.
    pub fn le(&self, other: &UtcTime) -> (r: bool)
        ensures
            r == utc_le(*self, *other),
    {
        self.secs < other.secs || (self.secs == other.secs && self.nanos <= other.nanos)
    }
}

/// `chrono::Utc::now`: the current time. What it returns depends on the
/// clock; only the documented range of the sub-second part is stated.
#[verifier::external_body]
fn utc_now() -> (r: UtcTime)
    ensures
        r.nanos < 2_000_000_000,
{
    let t = chrono::Utc::now();
    UtcTime { secs: t.timestamp(), nanos: t.timestamp_subsec_nanos() }
}

/// Timestamps for lifecycle management.
#[derive(Debug, Clone, Copy)]
pub struct LifecycleTimestamps {
    pub created_at: UtcTime,
    pub modified_at: UtcTime,
    pub trash_at: Option<UtcTime>,
    pub purge_at: Option<UtcTime>,
}

/// The lifecycle state that timestamps `t` give at time `now`.
pub open spec fn spec_state_at(t: LifecycleTimestamps, now: UtcTime) -> Lifecycle {
    if t.purge_at matches Some(p) && utc_le(p, now) {
        Lifecycle::Purged
    } else if t.trash_at matches Some(tr) && utc_le(tr, now) {
        Lifecycle::Trash
    } else {
        Lifecycle::Active
    }
}

impl LifecycleTimestamps {
    /// Timestamps of an entry created now.
    pub fn new() -> (r: Self)
        ensures
            r.created_at == r.modified_at,
            r.trash_at is None,
            r.purge_at is None,
    {
        Self::new_at(utc_now())
    }

    /// Timestamps of an entry created at `now`.
    pub fn new_at(now: UtcTime) -> (r: Self)
        ensures
            r == (LifecycleTimestamps { created_at: now, modified_at: now, trash_at: None, purge_at: None }),
    {
        LifecycleTimestamps { created_at: now, modified_at: now, trash_at: None, purge_at: None }
    }

    /// Marks the entry as modified now: the modification time becomes a
    /// reading of the clock (whose sub-second part is below two seconds),
    /// the other timestamps stay.
    pub fn touch(&mut self)
        ensures
            final(self).created_at == old(self).created_at,
            final(self).trash_at == old(self).trash_at,
            final(self).purge_at == old(self).purge_at,
            exists|now: UtcTime|
                now.nanos < 2_000_000_000 && *final(self) == (LifecycleTimestamps {
                    modified_at: now,
                    ..*old(self)
                }),
    {
        self.touch_at(utc_now());
    }

    /// Marks the entry as modified at `now`.
    pub fn touch_at(&mut self, now: UtcTime)
        ensures
            *final(self) == (LifecycleTimestamps { modified_at: now, ..*old(self) }),
    {
        self.modified_at = now;
    }

    /// The lifecycle state now.
    pub fn current_state(&self) -> (r: Lifecycle)
        ensures
            exists|now: UtcTime| r == spec_state_at(*self, now),
    {
        self.state_at(utc_now())
    }

    /// The lifecycle state at `now`: purged once `purge_at` has come,
    /// else trashed once `trash_at` has come, else active.
    pub fn state_at(&self, now: UtcTime) -> (r: Lifecycle)
        ensures
            r == spec_state_at(*self, now),
    {
        if let Some(purge_at) = self.purge_at {
            if purge_at.le(&now) {
                return Lifecycle::Purged;
            }
        }
        if let Some(trash_at) = self.trash_at {
            if trash_at.le(&now) {
                return Lifecycle::Trash;
            }
        }
        Lifecycle::Active
    }
}

impl Default for LifecycleTimestamps {
    fn default() -> (r: Self)
        ensures
            r.created_at == r.modified_at,
            r.trash_at is None,
            r.purge_at is None,
    {
        Self::new()
    }
}

/// A complete entry of the store.
#[derive(Debug)]
pub struct Entry {
    pub key: Key,
    pub value: Value,
    pub timestamps: LifecycleTimestamps,
}

impl Entry {
    /// A new entry created now.
    pub fn new(key: Key, value: Value) -> (r: Entry)
        ensures
            r.key == key,
            r.value == value,
            r.timestamps.trash_at is None,
            r.timestamps.purge_at is None,
            r.timestamps.created_at == r.timestamps.modified_at,
    {
        Entry { key, value, timestamps: LifecycleTimestamps::new() }
    }

    /// The lifecycle state now.
    pub fn lifecycle(&self) -> (r: Lifecycle)
        ensures
            exists|now: UtcTime| r == spec_state_at(self.timestamps, now),
    {
        self.timestamps.current_state()
    }

    /// The lifecycle state at `now`.
    pub fn lifecycle_at(&self, now: UtcTime) -> (r: Lifecycle)
        ensures
            r == spec_state_at(self.timestamps, now),
    {
        self.timestamps.state_at(now)
    }

    /// Whether the entry is active now.
    pub fn is_visible(&self) -> (r: bool)
        ensures
            exists|now: UtcTime| r == (spec_state_at(self.timestamps, now) == Lifecycle::Active),
    {
        let s = self.lifecycle();
        matches!(s, Lifecycle::Active)
    }

    /// Whether the entry is in the trash now.
    pub fn is_trash(&self) -> (r: bool)
        ensures
            exists|now: UtcTime| r == (spec_state_at(self.timestamps, now) == Lifecycle::Trash),
    {
        let s = self.lifecycle();
        matches!(s, Lifecycle::Trash)
    }

    /// Whether the entry is purged now.
    pub fn is_purged(&self) -> (r: bool)
        ensures
            exists|now: UtcTime| r == (spec_state_at(self.timestamps, now) == Lifecycle::Purged),
    {
        let s = self.lifecycle();
        matches!(s, Lifecycle::Purged)
    }
}

} // verus!
