//! The data model: typed metadata values, records, and the error kinds
//! shared by the codec and the store.
//!
//! Keys and textual values are held as their raw UTF-8 bytes, exactly as
//! they stand in the file; how they are rendered for people is the calling
//! program's concern. A 64-bit float value is held as its IEEE 754 bit
//! pattern, which is what the file stores and what the codec moves.

use vstd::prelude::*;

verus! {

/// One typed metadata value: the closed sum of the five wire-level kinds.
#[derive(Debug, PartialEq, Eq)]
pub enum MetaValue {
    /// Wire tag 0: no payload.
    Null,
    /// Wire tag 1: a single byte, any nonzero byte decodes to `true`.
    Bool(bool),
    /// Wire tag 2: a little-endian signed 64-bit integer.
    Int(i64),
    /// Wire tag 3: a little-endian IEEE 754 double, held as its bit pattern.
    Float(u64),
    /// Wire tag 4: length-prefixed UTF-8 text, held as its raw bytes.
    Str(Vec<u8>),
}

/// The mathematical shape of a [`MetaValue`], used in contracts.
#[verifier::ext_equal]
pub enum ValueView {
    Null,
    Bool(bool),
    Int(i64),
    Float(u64),
    Str(Seq<u8>),
}

impl View for MetaValue {
    type V = ValueView;

    open spec fn view(&self) -> ValueView {
        match self {
            MetaValue::Null => ValueView::Null,
            MetaValue::Bool(b) => ValueView::Bool(*b),
            MetaValue::Int(i) => ValueView::Int(*i),
            MetaValue::Float(bits) => ValueView::Float(*bits),
            MetaValue::Str(s) => ValueView::Str(s@),
        }
    }
}

/// One key/value record of the metadata block.
///
/// `value_type` mirrors the wire type tag as decimal text. It is advisory
/// only: encoding dispatches on the actual `value` variant, never on this
/// field, so a caller that supplies an inconsistent label desynchronizes
/// the two without affecting what is written to the file.
#[derive(Debug, PartialEq, Eq)]
pub struct GGUFMetadata {
    /// The record's key, as raw UTF-8 bytes.
    pub key: Vec<u8>,
    /// The record's typed value.
    pub value: MetaValue,
    /// The advisory type label, as raw UTF-8 bytes.
    pub value_type: Vec<u8>,
}

/// The mathematical shape of a [`GGUFMetadata`] record, used in contracts.
#[verifier::ext_equal]
pub struct MetaView {
    pub key: Seq<u8>,
    pub value: ValueView,
    pub value_type: Seq<u8>,
}

impl View for GGUFMetadata {
    type V = MetaView;

    open spec fn view(&self) -> MetaView {
        MetaView { key: self.key@, value: self.value@, value_type: self.value_type@ }
    }
}

/// The shapes of a whole record sequence.
pub open spec fn views_of(records: Seq<GGUFMetadata>) -> Seq<MetaView> {
    records.map_values(|m: GGUFMetadata| m@)
}

/// Appending a record appends its shape.
pub proof fn lemma_views_of_push(s: Seq<GGUFMetadata>, x: GGUFMetadata)
    ensures
        views_of(s.push(x)) == views_of(s).push(x@),
{
    assert forall|j: int| 0 <= j < s.len() + 1 implies views_of(s.push(x))[j] == views_of(
        s,
    ).push(x@)[j] by {
        if j < s.len() {
            assert(s.push(x)[j] == s[j]);
            assert(views_of(s)[j] == s[j]@);
        } else {
            assert(s.push(x)[j] == x);
        }
    }
    assert(views_of(s.push(x)) =~= views_of(s).push(x@));
}

/// Replacing a record replaces its shape, and nothing else.
pub proof fn lemma_views_of_update(s: Seq<GGUFMetadata>, i: int, x: GGUFMetadata)
    requires
        0 <= i < s.len(),
    ensures
        views_of(s.update(i, x)) == views_of(s).update(i, x@),
{
    assert forall|j: int| 0 <= j < s.len() implies views_of(s.update(i, x))[j] == views_of(
        s,
    ).update(i, x@)[j] by {
        if j == i {
            assert(s.update(i, x)[j] == x);
        } else {
            assert(s.update(i, x)[j] == s[j]);
            assert(views_of(s)[j] == s[j]@);
        }
    }
    assert(views_of(s.update(i, x)) =~= views_of(s).update(i, x@));
}

/// Everything that can go wrong across the codec, the store, and the
/// calling program's file and import/export handling.
#[derive(Clone, Copy, Debug, PartialEq, Eq)]
pub enum GgufError {
    /// The file is missing or unreadable. Raised by the calling program's
    /// file handling, never by the codec itself.
    NotFound,
    /// The first four bytes are not the GGUF magic.
    InvalidFormat,
    /// A declared length runs past the end of the available bytes.
    TruncatedInput,
    /// A wire type tag outside the five supported kinds.
    UnsupportedType,
    /// An import payload that does not parse. Raised by the calling
    /// program's import handling.
    MalformedStructuredInput,
    /// A value string that does not parse as its declared type. Raised by
    /// the calling program's argument handling.
    ValueTypeMismatch,
}

impl MetaValue {
    /// An exact copy of this value.
    pub fn duplicate(&self) -> (r: MetaValue)
        ensures
            r@ == self@,
    {
        match self {
            MetaValue::Null => MetaValue::Null,
            MetaValue::Bool(b) => MetaValue::Bool(*b),
            MetaValue::Int(i) => MetaValue::Int(*i),
            MetaValue::Float(bits) => MetaValue::Float(*bits),
            MetaValue::Str(s) => {
                let c = copy_bytes(s);
                MetaValue::Str(c)
            },
        }
    }
}

impl ValueView {
    /// The wire type tag a value of this shape encodes under.
    pub open spec fn tag(self) -> u32 {
        match self {
            ValueView::Null => 0,
            ValueView::Bool(_) => 1,
            ValueView::Int(_) => 2,
            ValueView::Float(_) => 3,
            ValueView::Str(_) => 4,
        }
    }
}

impl GGUFMetadata {
    /// An exact copy of this record.
    pub fn duplicate(&self) -> (r: GGUFMetadata)
        ensures
            r@ == self@,
    {
        GGUFMetadata {
            key: copy_bytes(&self.key),
            value: self.value.duplicate(),
            value_type: copy_bytes(&self.value_type),
        }
    }
}

/// An exact copy of a byte vector.
pub fn copy_bytes(v: &Vec<u8>) -> (r: Vec<u8>)
    ensures
        r@ == v@,
{
    let mut r: Vec<u8> = Vec::new();
    let mut i: usize = 0;
    while i < v.len()
        invariant
            i <= v.len(),
            r@ == v@.take(i as int),
        decreases v.len() - i,
    {
        r.push(v[i]);
        assert(v@.take(i + 1) =~= v@.take(i as int).push(v@[i as int]));
        i = i + 1;
    }
    assert(v@.take(v.len() as int) =~= v@);
    r
}

} // verus!
