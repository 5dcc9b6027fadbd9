use vstd::prelude::*;
use crate::doc_order::{merge_order, sum_live, valid_mapping_opt};
use crate::fastfield::{facet_mapping_missing, fast_field_ids, mapping_of, tom_fits, MergedFastField};
use crate::fieldnorm::{fieldnorm_field_ids, norms_of, sat, total_tokens, MergedFieldNorms};
use crate::postings::{field_terms_ok, indexed_field_ids, tom_in, MergedFieldPostings};
use crate::schema::{DocId, FieldKind, IndexSettings, MergeError, Order, Schema, MAX_DOC_LIMIT};
use crate::segment::{SegmentOrdinal, SegmentReader};
use crate::sort_order::{
    disjoint_and_sorted, is_sorted_mapping, keys_in_order, min_sort_value, segments_sorted, sort_field_error, stable_order,
};
use crate::store::{add_docs, close_block, payloads, payloads_of, stack_blocks, StoreWriter};
use crate::term_ordinals::TermOrdinalMapping;

verus! {

/// Merges a list of segments into one.
pub struct IndexMerger {
    pub index_settings: IndexSettings,
    pub schema: Schema,
    /// The non-empty input segments, in the order in which they are merged.
    pub readers: Vec<SegmentReader>,
    /// The number of documents of the merged segment.
    pub max_doc: u32,
}

/// The segments that hold at least one live document, in their order.
pub open spec fn non_empty(segments: Seq<SegmentReader>) -> Seq<SegmentReader>
    decreases segments.len(),
{
    if segments.len() == 0 {
        seq![]
    } else if segments.last().spec_num_docs() > 0 {
        non_empty(segments.drop_last()).push(segments.last())
    } else {
        non_empty(segments.drop_last())
    }
}

/// Some hierarchical facet field is not indexed, so its term ordinals cannot be remapped.
pub open spec fn facet_unindexed(schema: Schema) -> bool {
    exists|f: int|
        0 <= f < schema.fields@.len() && (#[trigger] schema.fields@[f]).kind == FieldKind::HierarchicalFacet
            && !schema.fields@[f].indexed
}

pub open spec fn readers_wf(readers: Seq<SegmentReader>, schema: Schema) -> bool {
    forall|i: int| 0 <= i < readers.len() ==> (#[trigger] readers[i]).wf(schema)
}

impl IndexMerger {
    pub open spec fn wf(&self) -> bool {
        &&& readers_wf(self.readers@, self.schema)
        &&& forall|i: int| 0 <= i < self.readers@.len() ==> (#[trigger] self.readers@[i]).spec_num_docs() > 0
        &&& self.max_doc == sum_live(self.readers@, self.readers@.len() as int)
        &&& self.max_doc < MAX_DOC_LIMIT
        &&& self.readers@.len() <= self.max_doc
    }
}

/// Why opening a merger over these segments fails, if it does.
pub open spec fn open_error(schema: Schema, settings: IndexSettings, segments: Seq<SegmentReader>) -> Option<MergeError> {
    match settings.sort_by_field {
        Some(f) if non_empty(segments).len() > 0 && sort_field_error(schema, f.field).is_some() => sort_field_error(
            schema,
            f.field,
        ),
        _ => if sum_live(segments, segments.len() as int) >= MAX_DOC_LIMIT {
            Some(MergeError::InvalidArgument)
        } else {
            None
        },
    }
}

impl IndexMerger {
    /// Opens a merger over the segments that hold live documents.
    ///
    /// With a sort field configured, the segments are ordered by the least value
    /// of that field. The merged segment must have fewer than `MAX_DOC_LIMIT` documents.
    pub fn open(schema: Schema, index_settings: IndexSettings, segments: Vec<SegmentReader>) -> (r: Result<
        IndexMerger,
        MergeError,
    >)
        requires
            readers_wf(segments@, schema),
        ensures
            match r {
                Err(e) => open_error(schema, index_settings, segments@) == Some(e),
                Ok(m) => {
                    &&& open_error(schema, index_settings, segments@).is_none()
                    &&& m.wf()
                    &&& m.schema == schema
                    &&& m.index_settings == index_settings
                    &&& m.max_doc == sum_live(segments@, segments@.len() as int)
                    &&& m.readers@.to_multiset() == non_empty(segments@).to_multiset()
                    &&& match index_settings.sort_by_field {
                        None => m.readers@ == non_empty(segments@),
                        Some(f) => {
                            &&& forall|i: int| 0 <= i < m.readers@.len() - 1 ==> keys_in_order(
                                f.order == Order::Asc,
                                min_sort_value(#[trigger] m.readers@[i], f.field as int),
                                min_sort_value(m.readers@[i + 1], f.field as int),
                            )
                            &&& exists|idx: Seq<int>| #[trigger] stable_order(
                                non_empty(segments@),
                                m.readers@,
                                idx,
                                f.field as int,
                            )
                        },
                    }
                },
            },
    {
        let mut readers: Vec<SegmentReader> = Vec::new();
        let mut max_doc: u64 = 0;
        let mut i: usize = 0;
        let mut segments = segments;
        let ghost segs = segments@;
        assert(segs.len() == segments.len());
        while segments.len() > 0
            invariant
                segments@ == segs.skip(i as int),
                segments@.len() == segs.len() - i,
                segs.len() <= usize::MAX,
                readers_wf(segs, schema),
                i <= segs.len(),
                readers@ == non_empty(segs.take(i as int)),
                max_doc == if sum_live(segs, i as int) >= MAX_DOC_LIMIT {
                    MAX_DOC_LIMIT as int
                } else {
                    sum_live(segs, i as int) as int
                },
            decreases segments@.len(),
        {
            let segment = segments.remove(0);
            assert(segment == segs[i as int]);
            assert(segments@ =~= segs.skip(i + 1));
            assert(segment.wf(schema));
            let n = segment.num_docs();
            assert(segs.take(i + 1).drop_last() =~= segs.take(i as int));
            assert(segs.take(i + 1).last() == segment);
            proof {
                lemma_sum_live_same(segs, segs.take(i + 1), i + 1);
                lemma_sum_live_same(segs, segs.take(i + 1), i as int);
                lemma_sum_live_same(segs.take(i + 1).drop_last(), segs.take(i + 1), i as int);
            }
            if n > 0 {
                readers.push(segment);
            }
            max_doc = if max_doc + n as u64 >= MAX_DOC_LIMIT as u64 {
                MAX_DOC_LIMIT as u64
            } else {
                max_doc + n as u64
            };
            i = i + 1;
        }
        assert(segs.take(segs.len() as int) =~= segs);
        proof {
            lemma_non_empty_props(segs, schema);
        }
        let ghost collected = readers@;
        if let Some(sort_by_field) = &index_settings.sort_by_field {
            readers = Self::sort_readers_by_min_sort_field(&schema, readers, sort_by_field)?;
        }
        proof {
            broadcast use vstd::seq_lib::group_to_multiset_ensures;

            lemma_sum_live_permutation(readers@, collected);
            assert forall|j: int| 0 <= j < readers@.len() implies (#[trigger] readers@[j]).wf(schema)
                && readers@[j].spec_num_docs() > 0 by {
                assert(readers@.to_multiset().count(readers@[j]) > 0);
                assert(collected.contains(readers@[j]));
            }
            lemma_sum_live_at_least_len(readers@);
        }
        if max_doc >= MAX_DOC_LIMIT as u64 {
            return Err(MergeError::InvalidArgument);
        }
        Ok(IndexMerger { index_settings, schema, readers, max_doc: max_doc as u32 })
    }
}

/// What `non_empty` keeps: valid segments, each with a live document, and all the live documents.
pub proof fn lemma_non_empty_props(segs: Seq<SegmentReader>, schema: Schema)
    requires
        readers_wf(segs, schema),
    ensures
        readers_wf(non_empty(segs), schema),
        forall|j: int| 0 <= j < non_empty(segs).len() ==> (#[trigger] non_empty(segs)[j]).spec_num_docs() > 0,
        sum_live(non_empty(segs), non_empty(segs).len() as int) == sum_live(segs, segs.len() as int),
    decreases segs.len(),
{
    if segs.len() > 0 {
        let p = segs.drop_last();
        lemma_non_empty_props(p, schema);
        lemma_sum_live_prefix(segs, segs.len() as int);
        let q = non_empty(p);
        if segs.last().spec_num_docs() > 0 {
            lemma_sum_live_prefix(q.push(segs.last()), q.len() + 1 as int);
            assert(q.push(segs.last()).drop_last() =~= q);
        }
    }
}

/// Segments that each hold a live document hold at least as many documents as there are segments.
pub proof fn lemma_sum_live_at_least_len(s: Seq<SegmentReader>)
    requires
        forall|j: int| 0 <= j < s.len() ==> (#[trigger] s[j]).spec_num_docs() > 0,
    ensures
        sum_live(s, s.len() as int) >= s.len(),
    decreases s.len(),
{
    if s.len() > 0 {
        lemma_sum_live_at_least_len(s.drop_last());
        lemma_sum_live_prefix(s, s.len() as int);
    }
}

/// What the merger writes: one part per component of the merged segment.
pub struct SegmentSerializer {
    pub fieldnorms: Vec<MergedFieldNorms>,
    pub postings: Vec<MergedFieldPostings>,
    pub fast_fields: Vec<MergedFastField>,
    pub store_writer: StoreWriter,
}

impl SegmentSerializer {
    /// An empty serializer whose store writer uses `compressor`.
    pub fn new(compressor: u8) -> (r: SegmentSerializer)
        ensures
            r.fieldnorms@.len() == 0,
            r.postings@.len() == 0,
            r.fast_fields@.len() == 0,
            r.store_writer.compressor == compressor,
            payloads(r.store_writer.docs@) == Seq::<Seq<u8>>::empty(),
            r.store_writer.block_checkpoints@.len() == 0,
            r.store_writer.pending == 0,
    {
        SegmentSerializer {
            fieldnorms: Vec::new(),
            postings: Vec::new(),
            fast_fields: Vec::new(),
            store_writer: StoreWriter::new(compressor),
        }
    }
}

impl IndexMerger {
    /// The doc-id mapping that the merge uses: none when the segments are stacked,
    /// else the documents in the order of the sort field.
    pub open spec fn mapping_decision(&self, mo: Option<Vec<(DocId, SegmentOrdinal)>>) -> bool {
        match self.index_settings.sort_by_field {
            None => mo.is_none(),
            Some(f) => if disjoint_and_sorted(self.readers@, f.field as int, f.order == Order::Asc) {
                mo.is_none()
            } else {
                mo matches Some(m) && is_sorted_mapping(self.readers@, f.field as int, f.order == Order::Asc, m@)
            },
        }
    }

    /// What `write` leaves in the serializer, for a given doc-id mapping and the
    /// term-ordinal mappings of the facet fields.
    pub open spec fn written(
        &self,
        before: SegmentSerializer,
        after: SegmentSerializer,
        mo: Option<Vec<(DocId, SegmentOrdinal)>>,
        toms: Seq<Option<TermOrdinalMapping>>,
    ) -> bool {
        let readers = self.readers@;
        let fields = self.schema.fields@;
        let order = merge_order(readers, mo);
        &&& after.fieldnorms@.map_values(|n: MergedFieldNorms| n.field) == fieldnorm_field_ids(fields, fields.len() as int)
        &&& forall|i: int| 0 <= i < after.fieldnorms@.len() ==> (#[trigger] after.fieldnorms@[i]).data@ == norms_of(
            readers,
            after.fieldnorms@[i].field as int,
            order,
        )
        &&& after.postings@.map_values(|p: MergedFieldPostings| p.field) == indexed_field_ids(fields, fields.len() as int)
        &&& forall|k: int| 0 <= k < after.postings@.len() ==> {
            &&& (#[trigger] after.postings@[k]).total_num_tokens == sat(
                total_tokens(readers, after.postings@[k].field as int, readers.len() as int) as int,
            )
            &&& field_terms_ok(readers, after.postings@[k].field as int, order, after.postings@[k].terms@)
        }
        &&& toms.len() == fields.len()
        &&& forall|f: int| 0 <= f < toms.len() ==> (#[trigger] toms[f]).is_some() == (fields[f].indexed && fields[f].kind
            == FieldKind::HierarchicalFacet)
        &&& forall|f: int| 0 <= f < toms.len() ==> tom_in(readers, after.postings@, f, #[trigger] toms[f])
        &&& after.fast_fields@.map_values(|c: MergedFastField| c.field) == fast_field_ids(fields, fields.len() as int)
        &&& forall|i: int| 0 <= i < after.fast_fields@.len() ==> self.column_ok(
            (#[trigger] after.fast_fields@[i]).field as int,
            toms,
            mo,
            after.fast_fields@[i].column,
        )
        &&& after.store_writer.compressor == before.store_writer.compressor
        &&& after.store_writer.pending == 0
        &&& payloads(after.store_writer.docs@) == payloads(before.store_writer.docs@) + payloads_of(readers, order)
        &&& after.store_writer.block_checkpoints@ == {
            let blocks = match mo {
                None => stack_blocks(
                    readers,
                    before.store_writer.compressor,
                    before.store_writer.block_checkpoints@,
                    before.store_writer.pending,
                    readers.len() as int,
                ),
                Some(m) => add_docs(before.store_writer.block_checkpoints@, before.store_writer.pending, m@.len()),
            };
            close_block(blocks.0, blocks.1)
        }
    }

    /// Why the sort field cannot be read, if it cannot: an unknown field, or one that
    /// is no single-valued numeric fast field (with no segment, nothing is read).
    pub open spec fn sort_error(&self) -> Option<MergeError> {
        match self.index_settings.sort_by_field {
            Some(f) => if self.readers@.len() > 0 {
                sort_field_error(self.schema, f.field)
            } else {
                None
            },
            None => None,
        }
    }

    /// With a sort field, the segments of a sorted index are sorted on it.
    pub open spec fn segments_presorted(&self) -> bool {
        match self.index_settings.sort_by_field {
            Some(f) => sort_field_error(self.schema, f.field).is_none() ==> segments_sorted(
                self.readers@,
                f.field as int,
                f.order == Order::Asc,
            ),
            None => true,
        }
    }

    /// Decides between stacking and re-sorting, and builds the doc-id mapping for the latter.
    pub fn doc_id_mapping(&self) -> (r: Result<Option<Vec<(DocId, SegmentOrdinal)>>, MergeError>)
        requires
            self.wf(),
            self.segments_presorted(),
        ensures
            match r {
                Ok(mo) => self.mapping_decision(mo) && valid_mapping_opt(self.readers@, mo) && self.sort_error().is_none(),
                Err(e) => match self.index_settings.sort_by_field {
                    Some(f) => self.readers@.len() > 0 && sort_field_error(self.schema, f.field) == Some(e),
                    None => false,
                },
            },
    {
        match &self.index_settings.sort_by_field {
            Some(sort_by_field) => {
                // Segments already disjoint and in order are stacked as they are.
                if self.is_disjunct_and_sorted_on_sort_property(sort_by_field)? {
                    Ok(None)
                } else {
                    let m = self.generate_doc_id_mapping(sort_by_field)?;
                    Ok(Some(m))
                }
            },
            None => Ok(None),
        }
    }

    /// Writes the merged segment: fieldnorms, postings, fast fields, then stored
    /// documents. Returns the number of documents of the merged segment.
    pub fn write(&self, serializer: &mut SegmentSerializer) -> (r: Result<u32, MergeError>)
        requires
            self.wf(),
            self.segments_presorted(),
        ensures
            r.is_ok() == (self.sort_error().is_none() && !facet_unindexed(self.schema)),
            r matches Err(e) ==> self.sort_error() == Some(e) || (e == MergeError::Internal && facet_unindexed(self.schema)),
            r matches Ok(n) ==> n == self.max_doc && exists|
                mo: Option<Vec<(DocId, SegmentOrdinal)>>,
                toms: Seq<Option<TermOrdinalMapping>>,
            | {
                &&& #[trigger] self.mapping_decision(mo)
                &&& #[trigger] self.written(*old(serializer), *final(serializer), mo, toms)
            },
    {
        let doc_id_mapping = self.doc_id_mapping()?;
        let fieldnorms = self.write_fieldnorms(&doc_id_mapping);
        let (postings, term_ord_mappings) = self.write_postings(&doc_id_mapping);
        proof {
            assert forall|f: int| 0 <= f < term_ord_mappings@.len() implies (#[trigger] term_ord_mappings@[f] matches Some(t)
                ==> tom_fits(self.readers@, f, t@)) by {
                if term_ord_mappings@[f].is_some() {
                    assert(tom_in(self.readers@, postings@, f, term_ord_mappings@[f]));
                }
            }
        }
        proof {
            if facet_unindexed(self.schema) {
                let f = choose|f: int| 0 <= f < self.schema.fields@.len() && (#[trigger] self.schema.fields@[f]).kind
                    == FieldKind::HierarchicalFacet && !self.schema.fields@[f].indexed;
                assert(mapping_of(term_ord_mappings@, f).is_none());
            }
            if facet_mapping_missing(self.schema, term_ord_mappings@) {
                let f = choose|f: int|
                    0 <= f < self.schema.fields@.len() && self.schema.fields@[f].kind == FieldKind::HierarchicalFacet
                        && #[trigger] mapping_of(term_ord_mappings@, f).is_none();
                assert(term_ord_mappings@[f].is_none());
                assert(facet_unindexed(self.schema));
            }
            if doc_id_mapping.is_some() {
                crate::laws::lemma_valid_mapping_not_exhausted(self.readers@, doc_id_mapping.unwrap()@);
            }
        }
        let fast_fields = self.write_fast_fields(&term_ord_mappings, &doc_id_mapping)?;
        self.write_storable_fields(&mut serializer.store_writer, &doc_id_mapping)?;
        serializer.store_writer.flush_block();
        serializer.fieldnorms = fieldnorms;
        serializer.postings = postings;
        serializer.fast_fields = fast_fields;
        proof {
            if doc_id_mapping.is_some() {
                let f = self.index_settings.sort_by_field.unwrap();
                crate::laws::law_sorted_mapping_keeps_segment_order(
                    self.readers@,
                    f.field as int,
                    f.order == Order::Asc,
                    doc_id_mapping.unwrap()@,
                );
            }
        }
        assert(self.written(*old(serializer), *serializer, doc_id_mapping, term_ord_mappings@));
        Ok(self.max_doc)
    }
}

/// Removing one segment removes its live documents from the total.
pub proof fn lemma_sum_live_remove(t: Seq<SegmentReader>, j: int)
    requires
        0 <= j < t.len(),
    ensures
        sum_live(t, t.len() as int) == sum_live(t.remove(j), t.len() - 1) + t[j].spec_num_docs(),
    decreases t.len(),
{
    lemma_sum_live_prefix(t, t.len() as int);
    lemma_sum_live_prefix(t.remove(j), t.len() - 1);
    if j == t.len() - 1 {
        assert(t.remove(j) =~= t.drop_last());
        lemma_sum_live_prefix(t.drop_last(), t.len() - 1);
    } else {
        let u = t.drop_last();
        assert(t.remove(j).drop_last() =~= u.remove(j));
        lemma_sum_live_remove(u, j);
        lemma_sum_live_prefix(u, u.len() as int);
        lemma_sum_live_prefix(u.remove(j), u.len() - 1);
        lemma_sum_live_prefix(t.remove(j).drop_last(), u.len() - 1);
        assert(t.remove(j).last() == t.last());
    }
}

/// `sum_live` of a sequence, in terms of its last element.
pub proof fn lemma_sum_live_prefix(t: Seq<SegmentReader>, k: int)
    requires
        k == t.len(),
    ensures
        k > 0 ==> sum_live(t, k) == sum_live(t.drop_last(), k - 1) + t.last().spec_num_docs(),
{
    if k > 0 {
        lemma_sum_live_same(t, t.drop_last(), k - 1);
    }
}

/// `sum_live` over the first `k` readers depends on them alone.
pub proof fn lemma_sum_live_same(s: Seq<SegmentReader>, t: Seq<SegmentReader>, k: int)
    requires
        0 <= k <= s.len(),
        k <= t.len(),
        forall|i: int| 0 <= i < k ==> s[i] == t[i],
    ensures
        sum_live(s, k) == sum_live(t, k),
    decreases k,
{
    if k > 0 {
        lemma_sum_live_same(s, t, k - 1);
    }
}

/// The total of live documents does not depend on the order of the segments.
pub proof fn lemma_sum_live_permutation(s: Seq<SegmentReader>, t: Seq<SegmentReader>)
    requires
        s.to_multiset() == t.to_multiset(),
    ensures
        sum_live(s, s.len() as int) == sum_live(t, t.len() as int),
    decreases s.len(),
{
    broadcast use vstd::seq_lib::group_to_multiset_ensures;

    if s.len() > 0 {
        let x = s.last();
        assert(s =~= s.drop_last().push(x));
        assert(s.to_multiset().count(x) > 0);
        assert(t.contains(x));
        let j = choose|j: int| 0 <= j < t.len() && t[j] == x;
        assert(t.remove(j).to_multiset() =~= s.drop_last().to_multiset());
        lemma_sum_live_permutation(s.drop_last(), t.remove(j));
        lemma_sum_live_remove(t, j);
        lemma_sum_live_prefix(s, s.len() as int);
    } else {
        assert(t.to_multiset().len() == 0);
        assert(t.len() == 0);
    }
}

} // verus!
