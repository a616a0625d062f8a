//! Stored values: lifecycle metadata, attachments and thumbnail version,
//! their public form, and their versioned byte encoding (a version byte
//! followed by the postcard encoding of the value).
use crate::types::time::{Timestamp, NANOS_PER_SEC};
use vstd::prelude::*;

verus! {

/// Lifecycle state of a stored value.
#[derive(Debug, Clone, Copy, PartialEq, Eq, Hash)]
pub enum LifecycleState {
    Active { last_accessed: Timestamp },
    Trash { trashed_at: Timestamp },
}

/// Metadata of a stored value.
#[derive(Debug, Clone, Copy, PartialEq, Eq)]
pub struct Metadata {
    pub created_at: Timestamp,
    pub updated_at: Timestamp,
    pub lifecycle_state: LifecycleState,
}

/// A file attached to a key.
#[derive(Debug, PartialEq, Eq)]
pub struct Attachment {
    pub filename: String,
    pub size: u64,
}

impl Clone for Attachment {
    fn clone(&self) -> (r: Self)
        ensures
            r == *self,
    {
        Attachment { filename: self.filename.clone(), size: self.size }
    }
}

impl View for Attachment {
    type V = (Seq<char>, u64);

    open spec fn view(&self) -> (Seq<char>, u64) {
        (self.filename@, self.size)
    }
}

/// A stored value (format version 1).
#[derive(Debug, PartialEq, Eq)]
pub struct Value {
    pub metadata: Metadata,
    pub attachments: Vec<Attachment>,
    pub thumb_version: u32,
}

/// The mathematical content of a stored value.
pub struct ValueView {
    pub metadata: Metadata,
    pub attachments: Seq<(Seq<char>, u64)>,
    pub thumb_version: u32,
}

/// The attachments of a vector, as (file name, size) pairs.
pub open spec fn attachments_view(v: Seq<Attachment>) -> Seq<(Seq<char>, u64)> {
    v.map_values(|a: Attachment| a@)
}

impl View for Value {
    type V = ValueView;

    open spec fn view(&self) -> ValueView {
        ValueView {
            metadata: self.metadata,
            attachments: attachments_view(self.attachments@),
            thumb_version: self.thumb_version,
        }
    }
}

/// Views of a pushed sequence.
pub proof fn lemma_attachments_view_push(s: Seq<Attachment>, a: Attachment)
    ensures
        attachments_view(s.push(a)) == attachments_view(s).push(a@),
{
    assert(attachments_view(s.push(a)) =~= attachments_view(s).push(a@));
}

/// Views of a growing prefix.
pub proof fn lemma_attachments_view_prefix(s: Seq<Attachment>, i: int)
    requires
        0 <= i < s.len(),
    ensures
        attachments_view(s.subrange(0, i + 1)) == attachments_view(s.subrange(0, i)).push(s[i]@),
{
    assert(s.subrange(0, i + 1) =~= s.subrange(0, i).push(s[i]));
    lemma_attachments_view_push(s.subrange(0, i), s[i]);
}

/// The timestamps of a lifecycle state.
pub open spec fn state_time(s: LifecycleState) -> Timestamp {
    match s {
        LifecycleState::Active { last_accessed } => last_accessed,
        LifecycleState::Trash { trashed_at } => trashed_at,
    }
}

/// All timestamps of the metadata are well-formed.
pub open spec fn metadata_wf(m: Metadata) -> bool {
    m.created_at.wf() && m.updated_at.wf() && state_time(m.lifecycle_state).wf()
}

impl Clone for Value {
    fn clone(&self) -> (r: Self)
        ensures
            r@ == self@,
    {
        let mut attachments: Vec<Attachment> = Vec::new();
        let mut i: usize = 0;
        while i < self.attachments.len()
            invariant
                i <= self.attachments@.len(),
                attachments_view(attachments@) == attachments_view(
                    self.attachments@.subrange(0, i as int),
                ),
            decreases self.attachments@.len() - i,
        {
            let ghost pre = attachments@;
            attachments.push(self.attachments[i].clone());
            proof {
                lemma_attachments_view_push(pre, attachments@.last());
                assert(attachments@ == pre.push(attachments@.last()));
                lemma_attachments_view_prefix(self.attachments@, i as int);
            }
            i = i + 1;
        }
        proof {
            assert(self.attachments@.subrange(0, i as int) =~= self.attachments@);
        }
        Value { metadata: self.metadata, attachments, thumb_version: self.thumb_version }
    }
}

/// The public metadata of a value.
#[derive(Debug, Clone, Copy, PartialEq, Eq)]
pub struct PublicMetadata {
    pub lifecycle_state: LifecycleState,
}

/// The public form of a stored value.
#[derive(Debug, PartialEq, Eq)]
pub struct PublicValue {
    pub metadata: PublicMetadata,
    pub attachments: Vec<Attachment>,
    pub thumb_version: u32,
}

impl PublicValue {
    /// The public form of a stored value: its lifecycle state, attachments
    /// and thumbnail version.
    pub fn from_latest_value(value: Value) -> (r: PublicValue)
        ensures
            r.metadata.lifecycle_state == value.metadata.lifecycle_state,
            attachments_view(r.attachments@) == attachments_view(value.attachments@),
            r.thumb_version == value.thumb_version,
    {
        let metadata = PublicMetadata {
            lifecycle_state: match value.metadata.lifecycle_state {
                LifecycleState::Active { last_accessed } => LifecycleState::Active { last_accessed },
                LifecycleState::Trash { trashed_at } => LifecycleState::Trash { trashed_at },
            },
        };
        let mut attachments: Vec<Attachment> = Vec::new();
        let mut i: usize = 0;
        while i < value.attachments.len()
            invariant
                i <= value.attachments@.len(),
                attachments_view(attachments@) == attachments_view(
                    value.attachments@.subrange(0, i as int),
                ),
            decreases value.attachments@.len() - i,
        {
            let a = &value.attachments[i];
            let ghost pre = attachments@;
            attachments.push(Attachment { filename: a.filename.clone(), size: a.size });
            proof {
                lemma_attachments_view_push(pre, attachments@.last());
                assert(attachments@ == pre.push(attachments@.last()));
                lemma_attachments_view_prefix(value.attachments@, i as int);
            }
            i = i + 1;
        }
        proof {
            assert(value.attachments@.subrange(0, i as int) =~= value.attachments@);
        }
        PublicValue { metadata, attachments, thumb_version: value.thumb_version }
    }
}

/// The wire layout of a value for postcard: metadata (two times and the
/// lifecycle state as variant index and time), attachments, thumbnail version.
pub type Wire = (((u64, u32), (u64, u32), (u32, (u64, u32))), Vec<(String, u64)>, u32);

/// The mathematical content of a [`Wire`].
pub type WireView = (
    ((u64, u32), (u64, u32), (u32, (u64, u32))),
    Seq<(Seq<char>, u64)>,
    u32,
);

/// The format version of [`Value`].
pub const VALUE_VERSION: u8 = 1;

/// The postcard encoding of a wire value (`postcard::to_extend`).
pub uninterp spec fn postcard_value_bytes(w: WireView) -> Seq<u8>;

/// The wire value that `postcard::from_bytes` reads from bytes, if any.
pub uninterp spec fn postcard_value_parse(b: Seq<u8>) -> Option<WireView>;

/// `postcard::to_extend`: appends the postcard encoding of `w` to `prefix`.
/// It is a function of `w` alone, and reading it back with
/// `postcard::from_bytes` gives `w` again. It does not fail here: the
/// extending flavour's pushes never fail, and integers, strings and
/// sequences of known length (all that a `Wire` holds) serialise without
/// error. The `Option` mirrors the `Result` that the crate returns.
#[verifier::external_body]
fn postcard_encode(w: &Wire, prefix: Vec<u8>) -> (r: Option<Vec<u8>>)
    ensures
        r is Some,
        r matches Some(b) ==> b@ == prefix@ + postcard_value_bytes(w.deep_view()),
        r matches Some(b) ==> postcard_value_parse(postcard_value_bytes(w.deep_view())) == Some(
            w.deep_view(),
        ),
{
    postcard::to_extend(w, prefix).ok()
}

/// `postcard::from_bytes`: the wire value that `b` starts with, if any.
#[verifier::external_body]
fn postcard_decode(b: &[u8]) -> (r: Option<Wire>)
    ensures
        match (r, postcard_value_parse(b@)) {
            (Some(w), Some(v)) => w.deep_view() == v,
            (None, None) => true,
            _ => false,
        },
{
    postcard::from_bytes::<Wire>(b).ok()
}

/// A time on the wire.
pub open spec fn time_wire(t: Timestamp) -> (u64, u32) {
    (t.secs, t.nanos)
}

/// A lifecycle state on the wire: variant index and time.
pub open spec fn state_wire(s: LifecycleState) -> (u32, (u64, u32)) {
    match s {
        LifecycleState::Active { last_accessed } => (0u32, time_wire(last_accessed)),
        LifecycleState::Trash { trashed_at } => (1u32, time_wire(trashed_at)),
    }
}

/// A value on the wire.
pub open spec fn value_wire(v: ValueView) -> WireView {
    (
        (
            time_wire(v.metadata.created_at),
            time_wire(v.metadata.updated_at),
            state_wire(v.metadata.lifecycle_state),
        ),
        v.attachments,
        v.thumb_version,
    )
}

/// A time read from the wire, if well-formed.
pub open spec fn time_unwire(t: (u64, u32)) -> Option<Timestamp> {
    if t.1 < NANOS_PER_SEC {
        Some(Timestamp { secs: t.0, nanos: t.1 })
    } else {
        None
    }
}

/// A lifecycle state read from the wire, if well-formed.
pub open spec fn state_unwire(s: (u32, (u64, u32))) -> Option<LifecycleState> {
    match time_unwire(s.1) {
        None => None,
        Some(t) => if s.0 == 0 {
            Some(LifecycleState::Active { last_accessed: t })
        } else if s.0 == 1 {
            Some(LifecycleState::Trash { trashed_at: t })
        } else {
            None
        },
    }
}

/// A value read from the wire, if well-formed.
pub open spec fn value_unwire(w: WireView) -> Option<ValueView> {
    match (time_unwire(w.0.0), time_unwire(w.0.1), state_unwire(w.0.2)) {
        (Some(c), Some(u), Some(s)) => Some(
            ValueView {
                metadata: Metadata { created_at: c, updated_at: u, lifecycle_state: s },
                attachments: w.1,
                thumb_version: w.2,
            },
        ),
        _ => None,
    }
}

/// The stored bytes of a value: the version byte, then the postcard encoding.
pub open spec fn value_bytes(v: ValueView) -> Seq<u8> {
    seq![VALUE_VERSION] + postcard_value_bytes(value_wire(v))
}

/// The value that stored bytes hold, if they hold one.
pub open spec fn value_decode(b: Seq<u8>) -> Option<ValueView> {
    if b.len() == 0 || b[0] != VALUE_VERSION {
        None
    } else {
        match postcard_value_parse(b.drop_first()) {
            Some(w) => value_unwire(w),
            None => None,
        }
    }
}

/// The stored bytes of a value decode to it.
pub open spec fn encodes(b: Seq<u8>, v: ValueView) -> bool {
    b == value_bytes(v) && value_decode(b) == Some(v)
}

fn time_to_wire(t: Timestamp) -> (r: (u64, u32))
    ensures
        r == time_wire(t),
{
    (t.secs, t.nanos)
}

fn state_to_wire(s: LifecycleState) -> (r: (u32, (u64, u32)))
    ensures
        r == state_wire(s),
{
    match s {
        LifecycleState::Active { last_accessed } => (0, time_to_wire(last_accessed)),
        LifecycleState::Trash { trashed_at } => (1, time_to_wire(trashed_at)),
    }
}

fn time_from_wire(t: (u64, u32)) -> (r: Option<Timestamp>)
    ensures
        r == time_unwire(t),
{
    if t.1 < NANOS_PER_SEC {
        Some(Timestamp { secs: t.0, nanos: t.1 })
    } else {
        None
    }
}

fn state_from_wire(s: (u32, (u64, u32))) -> (r: Option<LifecycleState>)
    ensures
        r == state_unwire(s),
{
    match time_from_wire(s.1) {
        None => None,
        Some(t) => if s.0 == 0 {
            Some(LifecycleState::Active { last_accessed: t })
        } else if s.0 == 1 {
            Some(LifecycleState::Trash { trashed_at: t })
        } else {
            None
        },
    }
}

/// Why stored bytes could not be turned into a value or back.
#[derive(Debug, Clone, Copy, PartialEq, Eq)]
pub enum ValueCodecError {
    /// The bytes are empty.
    Empty,
    /// The version byte names a format this library does not read.
    UnsupportedVersion(u8),
    /// The bytes after the version byte are not a value of that format.
    Malformed,
    /// The encoder failed.
    Encode,
}

impl Value {
    /// The value that a wire value holds, if its times and state are
    /// well-formed.
    pub fn from_wire(w: Wire) -> (r: Option<Value>)
        ensures
            match (r, value_unwire(w.deep_view())) {
                (Some(v), Some(x)) => v@ == x && metadata_wf(v.metadata),
                (None, None) => true,
                _ => false,
            },
    {
        let created_at = match time_from_wire(w.0.0) {
            Some(t) => t,
            None => return None,
        };
        let updated_at = match time_from_wire(w.0.1) {
            Some(t) => t,
            None => return None,
        };
        let lifecycle_state = match state_from_wire(w.0.2) {
            Some(s) => s,
            None => return None,
        };
        let names = w.1;
        let mut attachments: Vec<Attachment> = Vec::new();
        let mut i: usize = 0;
        while i < names.len()
            invariant
                i <= names@.len(),
                attachments_view(attachments@) == names.deep_view().subrange(0, i as int),
            decreases names@.len() - i,
        {
            let ghost pre = attachments@;
            attachments.push(Attachment { filename: names[i].0.clone(), size: names[i].1 });
            proof {
                lemma_attachments_view_push(pre, attachments@.last());
                assert(attachments@ == pre.push(attachments@.last()));
                assert(names.deep_view().subrange(0, i + 1) =~= names.deep_view().subrange(
                    0,
                    i as int,
                ).push(names.deep_view()[i as int]));
            }
            i = i + 1;
        }
        proof {
            assert(names.deep_view().subrange(0, i as int) =~= names.deep_view());
        }
        let v = Value {
            metadata: Metadata { created_at, updated_at, lifecycle_state },
            attachments,
            thumb_version: w.2,
        };
        Some(v)
    }

    /// The wire form of the value.
    pub fn to_wire(&self) -> (r: Wire)
        ensures
            r.deep_view() == value_wire(self@),
    {
        let mut names: Vec<(String, u64)> = Vec::new();
        let mut i: usize = 0;
        while i < self.attachments.len()
            invariant
                i <= self.attachments@.len(),
                names.deep_view() == attachments_view(self.attachments@.subrange(0, i as int)),
            decreases self.attachments@.len() - i,
        {
            let ghost pre = names.deep_view();
            names.push((self.attachments[i].filename.clone(), self.attachments[i].size));
            proof {
                assert(names.deep_view() =~= pre.push(self.attachments@[i as int]@));
                lemma_attachments_view_prefix(self.attachments@, i as int);
            }
            i = i + 1;
        }
        proof {
            assert(self.attachments@.subrange(0, i as int) =~= self.attachments@);
        }
        let w: Wire = (
            (
                time_to_wire(self.metadata.created_at),
                time_to_wire(self.metadata.updated_at),
                state_to_wire(self.metadata.lifecycle_state),
            ),
            names,
            self.thumb_version,
        );
        proof {
            assert(w.deep_view() == value_wire(self@));
        }
        w
    }
}

/// The stored bytes of a version-1 value: its version byte, then its encoding.
pub fn encode_value(v: &Value) -> (r: Result<Vec<u8>, ValueCodecError>)
    ensures
        match r {
            Ok(b) => b@ == value_bytes(v@) && (metadata_wf(v.metadata) ==> value_decode(b@)
                == Some(v@)),
            Err(e) => false,
        },
{
    let w = v.to_wire();
    let mut prefix: Vec<u8> = Vec::new();
    prefix.push(VALUE_VERSION);
    match postcard_encode(&w, prefix) {
        Some(b) => {
            proof {
                let bs = b@;
                assert(bs =~= value_bytes(v@));
                assert(bs.drop_first() =~= postcard_value_bytes(value_wire(v@)));
            }
            Ok(b)
        },
        None => Err(ValueCodecError::Encode),
    }
}

/// The versioned form of a stored value.
#[derive(Debug)]
pub enum VersionedValue {
    V1(Value),
}

impl VersionedValue {
    /// The stored bytes of the value: its version byte, then its encoding.
    pub fn as_bytes(&self) -> (r: Result<Vec<u8>, ValueCodecError>)
        ensures
            match self {
                VersionedValue::V1(v) => match r {
                    Ok(b) => b@ == value_bytes(v@) && (metadata_wf(v.metadata) ==> value_decode(
                        b@,
                    ) == Some(v@)),
                    Err(e) => false,
                },
            },
    {
        match self {
            VersionedValue::V1(v) => encode_value(v),
        }
    }

    /// The value that stored bytes hold.
    pub fn from_bytes(data: &[u8]) -> (r: Result<VersionedValue, ValueCodecError>)
        ensures
            match r {
                Ok(VersionedValue::V1(v)) => value_decode(data@) == Some(v@) && metadata_wf(
                    v.metadata,
                ),
                Err(ValueCodecError::Empty) => data@.len() == 0,
                Err(ValueCodecError::UnsupportedVersion(x)) => data@.len() > 0 && data@[0] == x
                    && x != VALUE_VERSION,
                Err(ValueCodecError::Malformed) => data@.len() > 0 && data@[0] == VALUE_VERSION
                    && value_decode(data@) is None,
                Err(ValueCodecError::Encode) => false,
            },
    {
        if data.len() == 0 {
            return Err(ValueCodecError::Empty);
        }
        let version = data[0];
        if version != VALUE_VERSION {
            return Err(ValueCodecError::UnsupportedVersion(version));
        }
        let rest = vstd::slice::slice_subrange(data, 1, data.len());
        proof {
            assert(rest@ =~= data@.drop_first());
        }
        let w = match postcard_decode(rest) {
            Some(w) => w,
            None => return Err(ValueCodecError::Malformed),
        };
        match Value::from_wire(w) {
            Some(v) => Ok(VersionedValue::V1(v)),
            None => Err(ValueCodecError::Malformed),
        }
    }
}

} // verus!
