//! The metadata store: the ordered record sequence read from one file,
//! with add-or-replace, remove, search, and bulk-replace operations.
//!
//! The store holds records in file order. Every operation here works on
//! memory alone; the calling program persists a mutated store by asking
//! [`GGUFFile::save`] for the full file image and overwriting the source
//! file with it, and it performs the file and JSON handling around
//! export and import.

use vstd::prelude::*;
use vstd::pervasive::VecAdditionalExecFns;

use crate::codec;
use crate::meta::GGUFMetadata;
use crate::meta::GgufError;
use crate::meta::MetaValue;
use crate::meta::MetaView;
use crate::meta::ValueView;
use crate::meta::views_of;

verus! {

/// Whether some record in `rs` has exactly this key.
pub open spec fn spec_has_key(rs: Seq<MetaView>, key: Seq<u8>) -> bool {
    exists|i: int| 0 <= i < rs.len() && rs[i].key == key
}

/// Whether `needle` occurs contiguously somewhere in `hay`. The empty
/// needle occurs in everything.
pub open spec fn spec_is_substring(hay: Seq<u8>, needle: Seq<u8>) -> bool {
    exists|i: int|
        0 <= i <= hay.len() - needle.len() && #[trigger] hay.subrange(i, i + needle.len())
            == needle
}

/// Filtering one more element keeps it exactly when it satisfies the
/// predicate.
proof fn lemma_filter_snoc<A>(s: Seq<A>, x: A, pred: spec_fn(A) -> bool)
    ensures
        s.push(x).filter(pred) == if pred(x) {
            s.filter(pred).push(x)
        } else {
            s.filter(pred)
        },
{
    reveal(Seq::filter);
    assert(s.push(x).drop_last() =~= s);
    assert(s.push(x).last() == x);
}

/// A filter whose predicate holds everywhere keeps the sequence intact.
proof fn lemma_filter_keeps_all<A>(s: Seq<A>, pred: spec_fn(A) -> bool)
    requires
        forall|i: int| 0 <= i < s.len() ==> pred(#[trigger] s[i]),
    ensures
        s.filter(pred) == s,
    decreases s.len(),
{
    reveal(Seq::filter);
    if s.len() == 0 {
        assert(s.filter(pred) =~= s);
    } else {
        assert(forall|i: int| 0 <= i < s.drop_last().len() ==> pred(#[trigger] s.drop_last()[i]));
        lemma_filter_keeps_all(s.drop_last(), pred);
        assert(pred(s.last()));
        assert(s.drop_last().push(s.last()) =~= s);
    }
}

/// Exact equality of two byte strings.
fn bytes_eq(a: &Vec<u8>, b: &Vec<u8>) -> (r: bool)
    ensures
        r == (a@ == b@),
{
    if a.len() != b.len() {
        return false;
    }
    let mut i: usize = 0;
    while i < a.len()
        invariant
            a@.len() == b@.len(),
            i <= a@.len(),
            forall|j: int| 0 <= j < i ==> a@[j] == b@[j],
        decreases a@.len() - i,
    {
        if a[i] != b[i] {
            return false;
        }
        i = i + 1;
    }
    proof {
        assert(a@ =~= b@);
    }
    true
}

/// Whether `needle` stands in `hay` starting at `at`.
fn matches_at(hay: &Vec<u8>, needle: &Vec<u8>, at: usize) -> (r: bool)
    requires
        at + needle@.len() <= hay@.len(),
    ensures
        r == (hay@.subrange(at as int, at as int + needle@.len()) == needle@),
{
    let ghost window = hay@.subrange(at as int, at as int + needle@.len());
    let mut j: usize = 0;
    while j < needle.len()
        invariant
            at + needle@.len() <= hay@.len(),
            hay@.len() == hay.len(),
            j <= needle@.len(),
            window == hay@.subrange(at as int, at as int + needle@.len()),
            forall|k: int| 0 <= k < j ==> hay@[at + k] == needle@[k],
        decreases needle@.len() - j,
    {
        if hay[at + j] != needle[j] {
            proof {
                assert(window[j as int] == hay@[at + j]);
            }
            return false;
        }
        j = j + 1;
    }
    proof {
        assert(window =~= needle@);
    }
    true
}

/// Case-sensitive substring search over byte strings.
fn contains_bytes(hay: &Vec<u8>, needle: &Vec<u8>) -> (r: bool)
    ensures
        r == spec_is_substring(hay@, needle@),
{
    if needle.len() == 0 {
        proof {
            assert(hay@.subrange(0, 0 + needle@.len() as int) =~= needle@);
        }
        return true;
    }
    if needle.len() > hay.len() {
        return false;
    }
    let last = hay.len() - needle.len();
    let mut i: usize = 0;
    while i <= last
        invariant
            1 <= needle@.len() <= hay@.len(),
            hay@.len() == hay.len(),
            last == hay@.len() - needle@.len(),
            i <= last + 1,
            forall|k: int|
                0 <= k < i ==> #[trigger] hay@.subrange(k, k + needle@.len()) != needle@,
        decreases last + 1 - i,
    {
        if matches_at(hay, needle, i) {
            return true;
        }
        i = i + 1;
    }
    false
}

/// The round trip, stated on the store: parsing the image that
/// [`GGUFFile::save`] promises for any store succeeds, declares version 1,
/// and yields every record back with its key and value exactly as the
/// store held them; only each advisory label is rebuilt from its value's
/// wire tag. Every store satisfies the codec's size bounds, because its
/// keys and texts live in real vectors.
pub proof fn lemma_save_then_new_round_trip(file: GGUFFile)
    ensures
        codec::spec_parse_file(codec::spec_encode_file(file@)) == Ok::<_, GgufError>(
            (1u32, file@.map_values(|r: MetaView| codec::spec_normal_record(r))),
        ),
{
    assert(file@.len() == file.metadata.len());
    assert forall|i: int| 0 <= i < file@.len() implies #[trigger] codec::spec_encodable(
        file@[i],
    ) by {
        assert(file@[i] == file.metadata@[i]@);
        assert(file.metadata@[i].key@.len() == file.metadata@[i].key.len());
        match file.metadata@[i].value {
            MetaValue::Str(v) => {
                assert(file@[i].value == ValueView::Str(v@));
                assert(v@.len() == v.len());
            },
            _ => {},
        }
    }
    codec::lemma_encode_then_parse(file@);
}

/// One parsed GGUF file: its ordered metadata records.
///
/// The version the file declared and its tensor count are not kept: the
/// encoder normalizes both, writing version 1 and tensor count 0.
#[derive(Debug, PartialEq, Eq)]
pub struct GGUFFile {
    /// The records, in file order.
    pub metadata: Vec<GGUFMetadata>,
}

impl View for GGUFFile {
    type V = Seq<MetaView>;

    open spec fn view(&self) -> Seq<MetaView> {
        views_of(self.metadata@)
    }
}

impl GGUFFile {
    /// Parse a whole file image into a store.
    ///
    /// Succeeds exactly when the bytes parse: magic present, every
    /// declared length covered, every tag supported. The version the
    /// file declares is accepted unread; the records come out in file
    /// order.
    pub fn new(bytes: &Vec<u8>) -> (r: Result<GGUFFile, GgufError>)
        ensures
            match r {
                Ok(file) => codec::spec_parse_file(bytes@) matches Ok(p) && file@ == p.1,
                Err(e) => codec::spec_parse_file(bytes@) == Err::<(u32, Seq<MetaView>), _>(e),
            },
    {
        match codec::decode_file(bytes) {
            Ok((_version, records)) => Ok(GGUFFile { metadata: records }),
            Err(e) => Err(e),
        }
    }

    /// The full file image for the current records: normalized header,
    /// then every record in store order. The caller overwrites the
    /// source file with exactly these bytes.
    pub fn save(&self) -> (out: Vec<u8>)
        ensures
            out@ == codec::spec_encode_file(self@),
    {
        codec::encode_file(&self.metadata)
    }

    /// Add-or-replace by key. If some record already has this key, the
    /// first such record takes the new value and label in place, its
    /// position untouched; otherwise a new record is appended at the
    /// end. The label is stored as given, advisory and unchecked.
    pub fn modify_metadata(&mut self, key: &Vec<u8>, value: MetaValue, value_type: &Vec<u8>)
        ensures
            ({
                let new_rec = MetaView { key: key@, value: value@, value_type: value_type@ };
                if spec_has_key(old(self)@, key@) {
                    exists|i: int|
                        {
                            &&& 0 <= i < old(self)@.len()
                            &&& old(self)@[i].key == key@
                            &&& (forall|j: int| 0 <= j < i ==> old(self)@[j].key != key@)
                            &&& final(self)@ == old(self)@.update(i, new_rec)
                        }
                } else {
                    final(self)@ == old(self)@.push(new_rec)
                }
            }),
    {
        let ghost new_rec = MetaView { key: key@, value: value@, value_type: value_type@ };
        let mut i: usize = 0;
        while i < self.metadata.len()
            invariant
                i <= self.metadata@.len(),
                self.metadata@ == old(self).metadata@,
                new_rec == (MetaView { key: key@, value: value@, value_type: value_type@ }),
                forall|j: int| 0 <= j < i ==> old(self)@[j].key != key@,
            decreases self.metadata@.len() - i,
        {
            if bytes_eq(&self.metadata[i].key, key) {
                proof {
                    assert(old(self)@[i as int] == self.metadata@[i as int]@);
                    assert(spec_has_key(old(self)@, key@));
                }
                let replacement = GGUFMetadata {
                    key: crate::meta::copy_bytes(key),
                    value,
                    value_type: crate::meta::copy_bytes(value_type),
                };
                let ghost ms = self.metadata@;
                self.metadata.set(i, replacement);
                proof {
                    crate::meta::lemma_views_of_update(ms, i as int, replacement);
                    assert(replacement@ == new_rec);
                    assert(self@ == old(self)@.update(i as int, new_rec));
                }
                return ;
            }
            i = i + 1;
        }
        proof {
            assert(!spec_has_key(old(self)@, key@));
        }
        let appended = GGUFMetadata {
            key: crate::meta::copy_bytes(key),
            value,
            value_type: crate::meta::copy_bytes(value_type),
        };
        let ghost ms = self.metadata@;
        self.metadata.push(appended);
        proof {
            crate::meta::lemma_views_of_push(ms, appended);
            assert(appended@ == new_rec);
            assert(self@ == old(self)@.push(new_rec));
        }
    }

    /// Remove by key: every record whose key equals the argument leaves
    /// the store; the rest keep their order. Removing an absent key
    /// leaves the records exactly as they were.
    pub fn remove_metadata(&mut self, key: &Vec<u8>)
        ensures
            final(self)@ == old(self)@.filter(|m: MetaView| m.key != key@),
            (forall|i: int| 0 <= i < old(self)@.len() ==> old(self)@[i].key != key@) ==> final(self)@
                == old(self)@,
    {
        let ghost pred = |m: MetaView| m.key != key@;
        let ghost before = self@;
        let mut kept: Vec<GGUFMetadata> = Vec::new();
        let mut i: usize = 0;
        proof {
            assert(before.take(0) =~= Seq::<MetaView>::empty());
            assert(Seq::<MetaView>::empty().filter(pred) =~= Seq::<MetaView>::empty()) by {
                reveal(Seq::filter);
            }
            assert(views_of(kept@) =~= Seq::<MetaView>::empty());
        }
        while i < self.metadata.len()
            invariant
                i <= self.metadata@.len(),
                before == views_of(self.metadata@),
                pred == (|m: MetaView| m.key != key@),
                views_of(kept@) == before.take(i as int).filter(pred),
            decreases self.metadata@.len() - i,
        {
            let keep = !bytes_eq(&self.metadata[i].key, key);
            proof {
                assert(before[i as int] == self.metadata@[i as int]@);
                assert(keep == pred(before[i as int]));
                assert(before.take(i + 1) =~= before.take(i as int).push(before[i as int]));
                lemma_filter_snoc(before.take(i as int), before[i as int], pred);
            }
            if keep {
                let copy = self.metadata[i].duplicate();
                let ghost kept_before = kept@;
                kept.push(copy);
                proof {
                    crate::meta::lemma_views_of_push(kept_before, copy);
                    assert(copy@ == before[i as int]);
                    assert(views_of(kept@) == before.take(i + 1).filter(pred));
                }
            }
            i = i + 1;
        }
        proof {
            assert(before.take(before.len() as int) =~= before);
        }
        self.metadata = kept;
        proof {
            if forall|i: int| 0 <= i < before.len() ==> #[trigger] before[i].key != key@ {
                assert(forall|i: int| 0 <= i < before.len() ==> pred(#[trigger] before[i]));
                lemma_filter_keeps_all(before, pred);
            }
        }
    }

    /// Every record whose key contains the given bytes, case-sensitive,
    /// in store order, as copies.
    pub fn search_metadata(&self, search_key: &Vec<u8>) -> (out: Vec<GGUFMetadata>)
        ensures
            views_of(out@) == self@.filter(
                |m: MetaView| spec_is_substring(m.key, search_key@),
            ),
    {
        let ghost pred = |m: MetaView| spec_is_substring(m.key, search_key@);
        let ghost all = self@;
        let mut out: Vec<GGUFMetadata> = Vec::new();
        let mut i: usize = 0;
        proof {
            assert(all.take(0) =~= Seq::<MetaView>::empty());
            assert(Seq::<MetaView>::empty().filter(pred) =~= Seq::<MetaView>::empty()) by {
                reveal(Seq::filter);
            }
            assert(views_of(out@) =~= Seq::<MetaView>::empty());
        }
        while i < self.metadata.len()
            invariant
                i <= self.metadata@.len(),
                all == views_of(self.metadata@),
                pred == (|m: MetaView| spec_is_substring(m.key, search_key@)),
                views_of(out@) == all.take(i as int).filter(pred),
            decreases self.metadata@.len() - i,
        {
            let hit = contains_bytes(&self.metadata[i].key, search_key);
            proof {
                assert(all[i as int] == self.metadata@[i as int]@);
                assert(hit == pred(all[i as int]));
                assert(all.take(i + 1) =~= all.take(i as int).push(all[i as int]));
                lemma_filter_snoc(all.take(i as int), all[i as int], pred);
            }
            if hit {
                let copy = self.metadata[i].duplicate();
                let ghost out_before = out@;
                out.push(copy);
                proof {
                    crate::meta::lemma_views_of_push(out_before, copy);
                    assert(copy@ == all[i as int]);
                    assert(views_of(out@) == all.take(i + 1).filter(pred));
                }
            }
            i = i + 1;
        }
        proof {
            assert(all.take(all.len() as int) =~= all);
        }
        out
    }

    /// The full record sequence, as copies, for the caller to hand to
    /// its structured export.
    pub fn export_metadata(&self) -> (out: Vec<GGUFMetadata>)
        ensures
            views_of(out@) == self@,
    {
        let mut out: Vec<GGUFMetadata> = Vec::new();
        let mut i: usize = 0;
        proof {
            assert(views_of(out@) =~= self@.take(0));
        }
        while i < self.metadata.len()
            invariant
                i <= self.metadata@.len(),
                views_of(out@) == views_of(self.metadata@).take(i as int),
            decreases self.metadata@.len() - i,
        {
            let copy = self.metadata[i].duplicate();
            let ghost out_before = out@;
            out.push(copy);
            proof {
                crate::meta::lemma_views_of_push(out_before, copy);
                assert(copy@ == views_of(self.metadata@)[i as int]);
                assert(views_of(out@) =~= views_of(self.metadata@).take(i + 1));
            }
            i = i + 1;
        }
        proof {
            assert(views_of(self.metadata@).take(self.metadata@.len() as int) =~= self@);
        }
        out
    }

    /// Replace the whole record sequence with the given one; the old
    /// records are discarded. Import is always a full replace, never a
    /// merge.
    pub fn import_metadata(&mut self, records: Vec<GGUFMetadata>)
        ensures
            final(self)@ == views_of(records@),
    {
        self.metadata = records;
    }
}

} // verus!
