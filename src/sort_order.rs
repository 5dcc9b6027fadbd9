use vstd::prelude::*;
use itertools::Itertools;
use vstd::multiset::Multiset;
use crate::doc_order::{lemma_stacked_order, seg_entries, stacked_order, valid_mapping};
use crate::merger::{readers_wf, IndexMerger};
use crate::schema::{Cardinality, DocId, FieldKind, IndexSortByField, MergeError, Order, Schema};
use crate::segment::{SegmentOrdinal, SegmentReader};

verus! {

/// A live document with its sort value: `(value, segment ordinal, doc id)`.
pub type SortEntry = (u64, SegmentOrdinal, DocId);

/// The order of the merged segment: by sort value in the configured direction,
/// ties broken by segment ordinal, then by doc id.
pub open spec fn entry_before(asc: bool, a: SortEntry, b: SortEntry) -> bool {
    if a.0 != b.0 {
        if asc {
            a.0 < b.0
        } else {
            a.0 > b.0
        }
    } else if a.1 != b.1 {
        a.1 < b.1
    } else {
        a.2 < b.2
    }
}

/// No entry is strictly before the one that precedes it.
pub open spec fn sorted_by_entry(asc: bool, s: Seq<SortEntry>) -> bool {
    forall|i: int| 0 <= i < s.len() - 1 ==> !entry_before(asc, #[trigger] s[i + 1], s[i])
}

pub open spec fn sort_value(r: SegmentReader, field: int, d: int) -> u64 {
    r.fields@[field].values@[d]@[0]
}

/// The sort-field value of every document of a segment, deleted ones included.
pub open spec fn sort_column(r: SegmentReader, field: int) -> Seq<u64> {
    Seq::new(r.max_doc as nat, |d: int| sort_value(r, field, d))
}

pub open spec fn keyed(readers: Seq<SegmentReader>, field: int, e: (DocId, SegmentOrdinal)) -> SortEntry {
    (sort_value(readers[e.1 as int], field, e.0 as int), e.1, e.0)
}

pub open spec fn is_min(v: u64, s: Seq<u64>) -> bool {
    s.contains(v) && forall|i: int| 0 <= i < s.len() ==> v <= s[i]
}

pub open spec fn is_max(v: u64, s: Seq<u64>) -> bool {
    s.contains(v) && forall|i: int| 0 <= i < s.len() ==> s[i] <= v
}

pub open spec fn seq_min(s: Seq<u64>) -> u64
    decreases s.len(),
{
    if s.len() == 0 {
        0
    } else if s.len() == 1 {
        s[0]
    } else if s.last() < seq_min(s.drop_last()) {
        s.last()
    } else {
        seq_min(s.drop_last())
    }
}

pub open spec fn seq_max(s: Seq<u64>) -> u64
    decreases s.len(),
{
    if s.len() == 0 {
        0
    } else if s.len() == 1 {
        s[0]
    } else if s.last() > seq_max(s.drop_last()) {
        s.last()
    } else {
        seq_max(s.drop_last())
    }
}

/// `seq_min` and `seq_max` are the least and the greatest element.
pub proof fn lemma_seq_min_max(s: Seq<u64>)
    requires
        s.len() > 0,
    ensures
        is_min(seq_min(s), s),
        is_max(seq_max(s), s),
        forall|v: u64| is_min(v, s) ==> v == seq_min(s),
        forall|v: u64| is_max(v, s) ==> v == seq_max(s),
    decreases s.len(),
{
    if s.len() == 1 {
        assert(s[0] == s[0]);
    } else {
        let p = s.drop_last();
        lemma_seq_min_max(p);
        assert(s.contains(seq_min(s))) by {
            if s.last() < seq_min(p) {
                assert(s[s.len() - 1] == s.last());
            } else {
                let i = choose|i: int| 0 <= i < p.len() && p[i] == seq_min(p);
                assert(s[i] == p[i]);
            }
        }
        assert(s.contains(seq_max(s))) by {
            if s.last() > seq_max(p) {
                assert(s[s.len() - 1] == s.last());
            } else {
                let i = choose|i: int| 0 <= i < p.len() && p[i] == seq_max(p);
                assert(s[i] == p[i]);
            }
        }
        assert forall|i: int| 0 <= i < s.len() implies seq_min(s) <= s[i] && s[i] <= seq_max(s) by {
            if i < p.len() {
                assert(s[i] == p[i]);
            }
        }
    }
}

/// The sort field of a segment, with the least and the greatest of its values.
pub struct SortFieldAccessor {
    pub field: usize,
    pub min_value: u64,
    pub max_value: u64,
}

/// The error that looking up the sort field gives, if any.
pub open spec fn sort_field_error(schema: Schema, field: u32) -> Option<MergeError> {
    if field >= schema.fields@.len() {
        Some(MergeError::InvalidArgument)
    } else if !schema.is_sort_field(field as int) {
        Some(MergeError::SchemaError)
    } else {
        None
    }
}

/// The sort values of two segments do not overlap, and come in the configured order.
pub open spec fn segments_in_order(a: SegmentReader, b: SegmentReader, field: int, asc: bool) -> bool {
    if asc {
        seq_max(sort_column(a, field)) <= seq_min(sort_column(b, field))
    } else {
        seq_min(sort_column(a, field)) >= seq_max(sort_column(b, field))
    }
}

/// Within the segment, the documents are already in the configured order of the sort field.
pub open spec fn segment_sorted(r: SegmentReader, field: int, asc: bool) -> bool {
    forall|d1: int, d2: int|
        0 <= d1 < d2 < r.max_doc ==> if asc {
            sort_value(r, field, d1) <= sort_value(r, field, d2)
        } else {
            sort_value(r, field, d1) >= sort_value(r, field, d2)
        }
}

pub open spec fn segments_sorted(readers: Seq<SegmentReader>, field: int, asc: bool) -> bool {
    forall|i: int| 0 <= i < readers.len() ==> segment_sorted(#[trigger] readers[i], field, asc)
}

pub open spec fn disjoint_and_sorted(readers: Seq<SegmentReader>, field: int, asc: bool) -> bool {
    forall|i: int| 0 <= i < readers.len() - 1 ==> segments_in_order(#[trigger] readers[i], readers[i + 1], field, asc)
}

/// What a doc-id mapping must be: every live document exactly once, in the sort order.
pub open spec fn is_sorted_mapping(
    readers: Seq<SegmentReader>,
    field: int,
    asc: bool,
    m: Seq<(DocId, SegmentOrdinal)>,
) -> bool {
    let order = stacked_order(readers, readers.len() as int);
    &&& m.len() == order.len()
    &&& m.no_duplicates()
    &&& forall|i: int| 0 <= i < m.len() ==> order.contains(#[trigger] m[i])
    &&& forall|e: (DocId, SegmentOrdinal)| #[trigger] order.contains(e) ==> m.contains(e)
    &&& forall|i: int|
        0 <= i < m.len() - 1 ==> entry_before(asc, keyed(readers, field, #[trigger] m[i]), keyed(readers, field, m[i + 1]))
}

/// Exact comparison under `entry_before`.
fn entry_sorts_before(asc: bool, a: &SortEntry, b: &SortEntry) -> (r: bool)
    ensures
        r == entry_before(asc, *a, *b),
{
    if a.0 != b.0 {
        if asc {
            a.0 < b.0
        } else {
            a.0 > b.0
        }
    } else if a.1 != b.1 {
        a.1 < b.1
    } else {
        a.2 < b.2
    }
}

/// Relies on itertools::Itertools::kmerge_by: the merged sequence holds the items of
/// all inputs, and it is sorted whenever every input is sorted by the same predicate.
#[verifier::external_body]
fn kmerge_entries(inputs: Vec<Vec<SortEntry>>, asc: bool) -> (r: Vec<SortEntry>)
    ensures
        r@.to_multiset() == inputs@.map_values(|v: Vec<SortEntry>| v@).flatten().to_multiset(),
        (forall|i: int| 0 <= i < inputs@.len() ==> sorted_by_entry(asc, #[trigger] inputs@[i]@))
            ==> sorted_by_entry(asc, r@),
{
    inputs.into_iter().kmerge_by(|a, b| entry_sorts_before(asc, a, b)).collect()
}

/// Relies on tantivy_bitpacker::minmax: `None` for no values, else the least and
/// the greatest of them.
#[verifier::external_body]
pub(crate) fn min_max_of(vals: &Vec<u64>) -> (r: Option<(u64, u64)>)
    ensures
        match r {
            None => vals@.len() == 0,
            Some((lo, hi)) => is_min(lo, vals@) && is_max(hi, vals@),
        },
{
    tantivy_bitpacker::minmax(vals.iter().cloned())
}

impl IndexMerger {
    /// Looks up the sort field in a segment, with the bounds of its values.
    pub fn get_sort_field_accessor(
        schema: &Schema,
        reader: &SegmentReader,
        sort_by_field: &IndexSortByField,
    ) -> (r: Result<SortFieldAccessor, MergeError>)
        requires
            reader.wf(*schema),
            reader.max_doc > 0,
        ensures
            match r {
                Err(e) => sort_field_error(*schema, sort_by_field.field) == Some(e),
                Ok(a) => {
                    &&& sort_field_error(*schema, sort_by_field.field).is_none()
                    &&& a.field == sort_by_field.field
                    &&& a.min_value == seq_min(sort_column(*reader, a.field as int))
                    &&& a.max_value == seq_max(sort_column(*reader, a.field as int))
                },
            },
    {
        let field = sort_by_field.field as usize;
        if field >= schema.fields.len() {
            return Err(MergeError::InvalidArgument);
        }
        match schema.fields[field].kind {
            FieldKind::Numeric(Some(Cardinality::SingleValue)) => {},
            _ => {
                return Err(MergeError::SchemaError);
            },
        }
        let values = &reader.fields[field].values;
        let mut column: Vec<u64> = Vec::new();
        let mut d: usize = 0;
        while d < reader.max_doc as usize
            invariant
                reader.wf(*schema),
                schema.is_sort_field(field as int),
                field == sort_by_field.field,
                values == reader.fields@[field as int].values,
                d <= reader.max_doc,
                column@ =~= sort_column(*reader, field as int).take(d as int),
            decreases reader.max_doc - d,
        {
            assert(reader.fields@[field as int].wf(schema.fields@[field as int], reader.max_doc as int));
            assert(values@[d as int]@.len() == 1);
            column.push(values[d][0]);
            d = d + 1;
        }
        assert(column@ =~= sort_column(*reader, field as int));
        proof {
            lemma_seq_min_max(column@);
        }
        match min_max_of(&column) {
            Some((lo, hi)) => Ok(SortFieldAccessor { field, min_value: lo, max_value: hi }),
            None => Err(MergeError::Internal),
        }
    }

    /// The sort-field accessor of each segment, in the order of the readers.
    pub fn get_reader_with_sort_field_accessor(
        &self,
        sort_by_field: &IndexSortByField,
    ) -> (r: Result<Vec<SortFieldAccessor>, MergeError>)
        requires
            self.wf(),
        ensures
            match r {
                Err(e) => self.readers@.len() > 0 && sort_field_error(self.schema, sort_by_field.field) == Some(e),
                Ok(v) => {
                    &&& self.readers@.len() == 0 || sort_field_error(self.schema, sort_by_field.field).is_none()
                    &&& v@.len() == self.readers@.len()
                    &&& forall|i: int| 0 <= i < v@.len() ==> {
                        &&& (#[trigger] v@[i]).field == sort_by_field.field
                        &&& v@[i].min_value == seq_min(sort_column(self.readers@[i], sort_by_field.field as int))
                        &&& v@[i].max_value == seq_max(sort_column(self.readers@[i], sort_by_field.field as int))
                    }
                },
            },
    {
        let mut out: Vec<SortFieldAccessor> = Vec::new();
        let mut i: usize = 0;
        while i < self.readers.len()
            invariant
                self.wf(),
                i <= self.readers@.len(),
                out@.len() == i,
                i == 0 || sort_field_error(self.schema, sort_by_field.field).is_none(),
                forall|j: int| 0 <= j < i ==> {
                    &&& (#[trigger] out@[j]).field == sort_by_field.field
                    &&& out@[j].min_value == seq_min(sort_column(self.readers@[j], sort_by_field.field as int))
                    &&& out@[j].max_value == seq_max(sort_column(self.readers@[j], sort_by_field.field as int))
                },
            decreases self.readers@.len() - i,
        {
            let reader = &self.readers[i];
            assert(reader.wf(self.schema));
            assert(reader.spec_num_docs() > 0);
            proof {
                lemma_num_docs_le_max_doc(*reader);
            }
            let accessor = Self::get_sort_field_accessor(&self.schema, reader, sort_by_field)?;
            out.push(accessor);
            i = i + 1;
        }
        Ok(out)
    }

    /// Checks whether the segments are disjoint on the sort field and in the
    /// configured order, so that stacking them keeps the documents sorted.
    pub fn is_disjunct_and_sorted_on_sort_property(
        &self,
        sort_by_field: &IndexSortByField,
    ) -> (r: Result<bool, MergeError>)
        requires
            self.wf(),
        ensures
            match r {
                Err(e) => self.readers@.len() > 0 && sort_field_error(self.schema, sort_by_field.field) == Some(e),
                Ok(b) => {
                    &&& b == disjoint_and_sorted(
                        self.readers@,
                        sort_by_field.field as int,
                        sort_by_field.order == Order::Asc,
                    )
                    &&& (self.readers@.len() == 0 || sort_field_error(self.schema, sort_by_field.field).is_none())
                },
            },
    {
        let accessors = self.get_reader_with_sort_field_accessor(sort_by_field)?;
        let asc = sort_by_field.order.is_asc();
        let ghost field = sort_by_field.field as int;
        let mut i: usize = 1;
        while i < accessors.len()
            invariant
                1 <= i,
                accessors@.len() == self.readers@.len(),
                forall|j: int| 0 <= j < accessors@.len() ==> {
                    &&& (#[trigger] accessors@[j]).min_value == seq_min(sort_column(self.readers@[j], field))
                    &&& accessors@[j].max_value == seq_max(sort_column(self.readers@[j], field))
                },
                asc == (sort_by_field.order == Order::Asc),
                field == sort_by_field.field,
                self.readers@.len() == 0 || sort_field_error(self.schema, sort_by_field.field).is_none(),
                forall|j: int| 0 <= j < i - 1 && j < self.readers@.len() - 1
                    ==> segments_in_order(#[trigger] self.readers@[j], self.readers@[j + 1], field, asc),
            decreases accessors@.len() - i,
        {
            let a = &accessors[i - 1];
            let b = &accessors[i];
            let in_order = if asc {
                a.max_value <= b.min_value
            } else {
                a.min_value >= b.max_value
            };
            if !in_order {
                assert(!segments_in_order(self.readers@[i - 1], self.readers@[i as int], field, asc));
                return Ok(false);
            }
            i = i + 1;
        }
        Ok(true)
    }
}

impl IndexMerger {
    /// The doc-id mapping of a sorted merge: position `i` holds the old doc id and
    /// the segment ordinal of the document that becomes doc `i`.
    pub fn generate_doc_id_mapping(
        &self,
        sort_by_field: &IndexSortByField,
    ) -> (r: Result<Vec<(DocId, SegmentOrdinal)>, MergeError>)
        requires
            self.wf(),
        ensures
            match r {
                Err(e) => self.readers@.len() > 0 && sort_field_error(self.schema, sort_by_field.field) == Some(e),
                Ok(m) => {
                    &&& valid_mapping(self.readers@, m@)
                    &&& segments_sorted(self.readers@, sort_by_field.field as int, sort_by_field.order == Order::Asc)
                        ==> is_sorted_mapping(self.readers@, sort_by_field.field as int, sort_by_field.order == Order::Asc, m@)
                },
            },
    {
        let accessors = self.get_reader_with_sort_field_accessor(sort_by_field)?;
        let asc = sort_by_field.order.is_asc();
        let field = sort_by_field.field as usize;
        let ghost readers = self.readers@;
        let ghost kf = |e: (DocId, SegmentOrdinal)| keyed(readers, field as int, e);
        let ghost presorted = segments_sorted(readers, field as int, asc);
        let mut inputs: Vec<Vec<SortEntry>> = Vec::new();
        let mut s: usize = 0;
        while s < self.readers.len()
            invariant
                self.wf(),
                readers == self.readers@,
                kf == (|e: (DocId, SegmentOrdinal)| keyed(readers, field as int, e)),
                field == sort_by_field.field,
                readers.len() == 0 || self.schema.is_sort_field(field as int),
                s <= readers.len(),
                inputs@.len() == s,
                readers.len() < 0x8000_0000,
                asc == (sort_by_field.order == Order::Asc),
                presorted == segments_sorted(readers, field as int, asc),
                inputs@.map_values(|v: Vec<SortEntry>| v@).flatten() == stacked_order(readers, s as int).map_values(kf),
                forall|i: int| 0 <= i < s ==> presorted ==> sorted_by_entry(asc, #[trigger] inputs@[i]@),
            decreases readers.len() - s,
        {
            let reader = &self.readers[s];
            assert(reader.wf(self.schema));
            assert(reader.fields@[field as int].wf(self.schema.fields@[field as int], reader.max_doc as int));
            let values = &reader.fields[field].values;
            let mut v: Vec<SortEntry> = Vec::new();
            let mut d: u32 = 0;
            while d < reader.max_doc
                invariant
                    self.wf(),
                    readers == self.readers@,
                    kf == (|e: (DocId, SegmentOrdinal)| keyed(readers, field as int, e)),
                    asc == (sort_by_field.order == Order::Asc),
                    s < readers.len(),
                    *reader == readers[s as int],
                    self.schema.is_sort_field(field as int),
                    field == sort_by_field.field,
                    reader.fields@[field as int].wf(self.schema.fields@[field as int], reader.max_doc as int),
                    values == reader.fields@[field as int].values,
                    d <= reader.max_doc,
                    v@ == seg_entries(*reader, s as int, d as int).map_values(kf),
                    readers.len() < 0x8000_0000,
                    presorted ==> segment_sorted(*reader, field as int, asc),
                    forall|i: int| 0 <= i < v@.len() ==> (#[trigger] v@[i]).1 == s && v@[i].2 < d
                        && v@[i].0 == sort_value(*reader, field as int, v@[i].2 as int),
                    presorted ==> sorted_by_entry(asc, v@),
                decreases reader.max_doc - d,
            {
                let ghost old_v = v@;
                if reader.is_alive(d) {
                    assert(values@[d as int]@.len() == 1);
                    v.push((values[d as usize][0], s as u32, d));
                    proof {
                        assert(seg_entries(*reader, s as int, d + 1) =~= seg_entries(*reader, s as int, d as int).push(
                            (d, s as u32),
                        ));
                        assert((s as u32) as int == s as int);
                        assert(readers[(s as u32) as int] == *reader);
                        assert(sort_value(*reader, field as int, d as int) == values@[d as int]@[0]);
                        assert(keyed(readers, field as int, (d, s as u32)) == (values@[d as int]@[0], s as u32, d));
                        assert(kf((d, s as u32)) == (values@[d as int]@[0], s as u32, d));
                        assert(seg_entries(*reader, s as int, d + 1).map_values(kf) =~= seg_entries(
                            *reader,
                            s as int,
                            d as int,
                        ).map_values(kf).push(kf((d, s as u32))));
                        assert(v@ =~= seg_entries(*reader, s as int, d + 1).map_values(kf));
                        if presorted {
                            assert forall|i: int| 0 <= i < v@.len() - 1 implies !entry_before(asc, #[trigger] v@[i + 1], v@[i]) by {
                                if i + 1 < old_v.len() {
                                    assert(v@[i] == old_v[i] && v@[i + 1] == old_v[i + 1]);
                                } else {
                                    assert(v@[i] == old_v[i]);
                                    assert(old_v[i].2 < d);
                                }
                            }
                        }
                    }
                } else {
                    assert(seg_entries(*reader, s as int, d + 1) =~= seg_entries(*reader, s as int, d as int));
                }
                d = d + 1;
            }
            let ghost old_inputs = inputs@;
            inputs.push(v);
            proof {
                assert(inputs@.map_values(|v: Vec<SortEntry>| v@) =~= old_inputs.map_values(|v: Vec<SortEntry>| v@).push(
                    inputs@[s as int]@,
                ));
                old_inputs.map_values(|v: Vec<SortEntry>| v@).lemma_flatten_push(inputs@[s as int]@);
                assert(stacked_order(readers, s + 1) == stacked_order(readers, s as int) + seg_entries(
                    readers[s as int],
                    s as int,
                    readers[s as int].max_doc as int,
                ));
                assert(stacked_order(readers, s + 1).map_values(kf) =~= stacked_order(readers, s as int).map_values(kf)
                    + seg_entries(readers[s as int], s as int, readers[s as int].max_doc as int).map_values(kf));
                assert forall|i: int| 0 <= i < s + 1 implies presorted ==> sorted_by_entry(asc, #[trigger] inputs@[i]@) by {
                    if i < s {
                        assert(inputs@[i] == old_inputs[i]);
                    }
                }
            }
            s = s + 1;
        }
        let merged = kmerge_entries(inputs, asc);
        let mut m: Vec<(DocId, SegmentOrdinal)> = Vec::new();
        let mut i: usize = 0;
        while i < merged.len()
            invariant
                i <= merged@.len(),
                m@ == merged@.take(i as int).map_values(|e: SortEntry| (e.2, e.1)),
            decreases merged@.len() - i,
        {
            m.push((merged[i].2, merged[i].1));
            assert(merged@.take(i + 1) =~= merged@.take(i as int).push(merged@[i as int]));
            assert(m@ =~= merged@.take(i + 1).map_values(|e: SortEntry| (e.2, e.1)));
            i = i + 1;
        }
        proof {
            assert(merged@.take(merged@.len() as int) =~= merged@);
            lemma_mapping_from_merge(readers, field as int, asc, merged@, m@, presorted);
        }
        Ok(m)
    }
}

pub open spec fn min_sort_value(r: SegmentReader, field: int) -> u64 {
    seq_min(sort_column(r, field))
}

/// `v` lists the readers `r` in some order: `v[i]` is `r[idx[i]]`, each once, and
/// readers with equal least sort values keep their order.
pub open spec fn stable_order(r: Seq<SegmentReader>, v: Seq<SegmentReader>, idx: Seq<int>, field: int) -> bool {
    &&& idx.len() == v.len()
    &&& idx.no_duplicates()
    &&& forall|i: int| 0 <= i < v.len() ==> 0 <= #[trigger] idx[i] < r.len() && v[i] == r[idx[i]]
    &&& forall|i: int, j: int|
        0 <= i < j < v.len() && min_sort_value(v[i], field) == min_sort_value(v[j], field) ==> #[trigger] idx[i]
            < #[trigger] idx[j]
}

pub open spec fn keys_in_order(asc: bool, a: u64, b: u64) -> bool {
    if asc {
        a <= b
    } else {
        a >= b
    }
}

impl IndexMerger {
    /// Orders the segments by the least value of their sort field, so that
    /// segments that do not overlap end up in the order that stacking needs.
    pub fn sort_readers_by_min_sort_field(
        schema: &Schema,
        readers: Vec<SegmentReader>,
        sort_by_field: &IndexSortByField,
    ) -> (r: Result<Vec<SegmentReader>, MergeError>)
        requires
            readers_wf(readers@, *schema),
            forall|i: int| 0 <= i < readers@.len() ==> (#[trigger] readers@[i]).max_doc > 0,
        ensures
            match r {
                Err(e) => readers@.len() > 0 && sort_field_error(*schema, sort_by_field.field) == Some(e),
                Ok(v) => {
                    &&& readers@.len() == 0 || sort_field_error(*schema, sort_by_field.field).is_none()
                    &&& v@.to_multiset() == readers@.to_multiset()
                    &&& forall|i: int| 0 <= i < v@.len() - 1 ==> keys_in_order(
                        sort_by_field.order == Order::Asc,
                        min_sort_value(#[trigger] v@[i], sort_by_field.field as int),
                        min_sort_value(v@[i + 1], sort_by_field.field as int),
                    )
                    &&& exists|idx: Seq<int>| #[trigger] stable_order(readers@, v@, idx, sort_by_field.field as int)
                },
            },
    {
        broadcast use vstd::seq_lib::group_to_multiset_ensures;

        let ghost field = sort_by_field.field as int;
        let asc = sort_by_field.order.is_asc();
        let mut keys: Vec<u64> = Vec::new();
        let mut i: usize = 0;
        while i < readers.len()
            invariant
                readers_wf(readers@, *schema),
                forall|j: int| 0 <= j < readers@.len() ==> (#[trigger] readers@[j]).max_doc > 0,
                i <= readers@.len(),
                keys@.len() == i,
                i == 0 || sort_field_error(*schema, sort_by_field.field).is_none(),
                field == sort_by_field.field,
                forall|j: int| 0 <= j < i ==> keys@[j] == min_sort_value(#[trigger] readers@[j], field),
            decreases readers@.len() - i,
        {
            assert(readers@[i as int].wf(*schema));
            assert(readers@[i as int].max_doc > 0);
            let accessor = Self::get_sort_field_accessor(schema, &readers[i], sort_by_field)?;
            keys.push(accessor.min_value);
            i = i + 1;
        }
        let ghost orig = readers@;
        let mut pool = readers;
        let mut sorted: Vec<SegmentReader> = Vec::new();
        let ghost mut sorted_keys: Seq<u64> = seq![];
        let ghost mut pool_idx: Seq<int> = Seq::new(orig.len(), |k: int| k);
        let ghost mut sorted_idx: Seq<int> = seq![];
        while pool.len() > 0
            invariant
                pool_idx.len() == pool@.len(),
                forall|j: int| 0 <= j < pool_idx.len() ==> 0 <= #[trigger] pool_idx[j] < orig.len() && pool@[j] == orig[pool_idx[j]],
                forall|a: int, b: int| 0 <= a < b < pool_idx.len() ==> #[trigger] pool_idx[a] < #[trigger] pool_idx[b],
                sorted_idx.len() == sorted@.len(),
                forall|j: int| 0 <= j < sorted_idx.len() ==> 0 <= #[trigger] sorted_idx[j] < orig.len() && sorted@[j] == orig[sorted_idx[j]],
                sorted_idx.no_duplicates(),
                forall|a: int, q: int| 0 <= a < sorted_idx.len() && 0 <= q < pool_idx.len() ==> #[trigger] sorted_idx[a] != #[trigger] pool_idx[q],
                forall|a: int, b: int| 0 <= a < b < sorted_idx.len() && sorted_keys[a] == sorted_keys[b] ==> #[trigger] sorted_idx[a] < #[trigger] sorted_idx[b],
                forall|a: int, q: int| 0 <= a < sorted_idx.len() && 0 <= q < pool_idx.len() && sorted_keys[a] == keys@[q]
                    ==> #[trigger] sorted_idx[a] < #[trigger] pool_idx[q],
                field == sort_by_field.field,
                asc == (sort_by_field.order == Order::Asc),
                pool@.len() == keys@.len(),
                forall|j: int| 0 <= j < pool@.len() ==> keys@[j] == min_sort_value(#[trigger] pool@[j], field),
                sorted_keys.len() == sorted@.len(),
                forall|j: int| 0 <= j < sorted@.len() ==> sorted_keys[j] == min_sort_value(#[trigger] sorted@[j], field),
                sorted@.to_multiset().add(pool@.to_multiset()) == orig.to_multiset(),
                forall|j: int| 0 <= j < sorted_keys.len() - 1 ==> keys_in_order(asc, #[trigger] sorted_keys[j], sorted_keys[j + 1]),
                sorted_keys.len() > 0 ==> forall|j: int| 0 <= j < keys@.len() ==> keys_in_order(asc, sorted_keys.last(), #[trigger] keys@[j]),
            decreases pool@.len(),
        {
            let mut best: usize = 0;
            let mut j: usize = 1;
            while j < keys.len()
                invariant
                    pool@.len() == keys@.len(),
                    keys@.len() > 0,
                    best < keys@.len(),
                    1 <= j <= keys@.len(),
                    forall|k: int| 0 <= k < j ==> keys_in_order(asc, keys@[best as int], #[trigger] keys@[k]),
                    forall|k: int| 0 <= k < best ==> #[trigger] keys@[k] != keys@[best as int],
                decreases keys@.len() - j,
            {
                let better = if asc {
                    keys[j] < keys[best]
                } else {
                    keys[j] > keys[best]
                };
                if better {
                    best = j;
                }
                j = j + 1;
            }
            let ghost old_pool = pool@;
            let ghost old_keys = keys@;
            let ghost old_sorted = sorted@;
            let ghost old_pool_idx = pool_idx;
            let key = keys.remove(best);
            let reader = pool.remove(best);
            proof {
                vstd::seq_lib::to_multiset_remove(old_pool, best as int);
                assert(pool@ == old_pool.remove(best as int));
                assert(forall|k: int| 0 <= k < keys@.len() ==> #[trigger] keys@[k] == old_keys[if k < best { k } else { k + 1 }]);
                assert(forall|k: int| 0 <= k < pool@.len() ==> #[trigger] pool@[k] == old_pool[if k < best { k } else { k + 1 }]);
            }
            sorted.push(reader);
            proof {
                let ghost_b = old_pool_idx[best as int];
                assert forall|q: int| 0 <= q < old_keys.len() && q != best && old_keys[q] == key implies old_pool_idx[best as int] < #[trigger] old_pool_idx[q] by {
                    if q < best {
                        assert(old_keys[q] != old_keys[best as int]);
                    }
                }
                pool_idx = old_pool_idx.remove(best as int);
                sorted_idx = sorted_idx.push(ghost_b);
                assert forall|a: int, b: int| 0 <= a < sorted_idx.len() && 0 <= b < sorted_idx.len() && a != b implies sorted_idx[a] != sorted_idx[b] by {
                    if a == sorted_idx.len() - 1 {
                        assert(old_pool_idx[best as int] == sorted_idx[a]);
                    } else if b == sorted_idx.len() - 1 {
                        assert(old_pool_idx[best as int] == sorted_idx[b]);
                    }
                }
                sorted_keys = sorted_keys.push(key);
                vstd::seq_lib::to_multiset_build(old_sorted, reader);
                assert(sorted@ == old_sorted.push(reader));
                assert(old_pool[best as int] == reader);
                vstd::seq_lib::to_multiset_contains(old_pool, reader);
                assert(old_pool.to_multiset().count(reader) > 0);
                assert(sorted@.to_multiset().add(pool@.to_multiset()) =~= old_sorted.to_multiset().add(old_pool.to_multiset()));
            }
        }
        proof {
            assert(pool@.to_multiset() =~= Multiset::empty());
            assert(sorted@.to_multiset() =~= orig.to_multiset());
            assert(stable_order(orig, sorted@, sorted_idx, field));
        }
        Ok(sorted)
    }
}

/// A merge of the keyed stacking order that comes out sorted is the doc-id mapping.
proof fn lemma_mapping_from_merge(
    readers: Seq<SegmentReader>,
    field: int,
    asc: bool,
    merged: Seq<SortEntry>,
    m: Seq<(DocId, SegmentOrdinal)>,
    sorted: bool,
)
    requires
        readers.len() <= u32::MAX,
        merged.to_multiset() == stacked_order(readers, readers.len() as int).map_values(
            |e: (DocId, SegmentOrdinal)| keyed(readers, field, e),
        ).to_multiset(),
        sorted ==> sorted_by_entry(asc, merged),
        m == merged.map_values(|e: SortEntry| (e.2, e.1)),
    ensures
        valid_mapping(readers, m),
        sorted ==> is_sorted_mapping(readers, field, asc, m),
{
    broadcast use vstd::seq_lib::group_to_multiset_ensures;

    let order = stacked_order(readers, readers.len() as int);
    let kf = |e: (DocId, SegmentOrdinal)| keyed(readers, field, e);
    let flat = order.map_values(kf);
    lemma_stacked_order(readers, readers.len() as int);
    assert forall|i: int, j: int| 0 <= i < flat.len() && 0 <= j < flat.len() && i != j implies flat[i] != flat[j] by {
        assert(order[i] != order[j]);
    }
    assert(flat.no_duplicates());
    flat.lemma_multiset_has_no_duplicates();
    merged.lemma_multiset_has_no_duplicates_conv();
    assert forall|i: int| 0 <= i < merged.len() implies exists|j: int| 0 <= j < order.len() && #[trigger] merged[i] == kf(order[j]) by {
        assert(merged.to_multiset().count(merged[i]) > 0);
        assert(flat.contains(merged[i]));
        let j = choose|j: int| 0 <= j < flat.len() && flat[j] == merged[i];
        assert(flat[j] == kf(order[j]));
    }
    assert forall|i: int| 0 <= i < m.len() implies order.contains(#[trigger] m[i]) && merged[i] == kf(m[i]) by {
        let j = choose|j: int| 0 <= j < order.len() && #[trigger] merged[i] == kf(order[j]);
        assert(m[i] == order[j]);
    }
    assert forall|e: (DocId, SegmentOrdinal)| #[trigger] order.contains(e) implies m.contains(e) by {
        let j = choose|j: int| 0 <= j < order.len() && order[j] == e;
        assert(flat[j] == kf(e));
        assert(flat.to_multiset().count(kf(e)) > 0);
        assert(merged.contains(kf(e)));
        let i = choose|i: int| 0 <= i < merged.len() && merged[i] == kf(e);
        assert(m[i] == e);
    }
    assert forall|i: int, j: int| 0 <= i < m.len() && 0 <= j < m.len() && i != j implies m[i] != m[j] by {
        assert(merged[i] == kf(m[i]) && merged[j] == kf(m[j]));
    }
    assert(m.no_duplicates());
    assert(merged.len() == merged.to_multiset().len());
    assert(flat.len() == flat.to_multiset().len());
    assert(m.len() == order.len());
    if sorted {
        assert forall|i: int| 0 <= i < m.len() - 1 implies entry_before(asc, keyed(readers, field, #[trigger] m[i]), keyed(readers, field, m[i + 1])) by {
            assert(merged[i] == kf(m[i]) && merged[i + 1] == kf(m[i + 1]));
            assert(!entry_before(asc, merged[i + 1], merged[i]));
            assert(merged[i] != merged[i + 1]);
        }
    }
}

/// A segment has no more live documents than documents.
pub proof fn lemma_num_docs_le_max_doc(r: SegmentReader)
    ensures
        r.spec_num_docs() <= r.max_doc,
        r.spec_num_docs() > 0 ==> r.max_doc > 0,
{
    lemma_alive_le(r, r.max_doc as int);
}

/// There are at most `n` live documents below `n`.
proof fn lemma_alive_le(r: SegmentReader, n: int)
    requires
        0 <= n,
    ensures
        r.alive_below(n).len() <= n,
    decreases n,
{
    if n > 0 {
        lemma_alive_le(r, n - 1);
    }
}

} // verus!
