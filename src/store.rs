use vstd::prelude::*;
use crate::doc_order::{
    lemma_merge_order_alive, lemma_stacked_step, pair_alive, stacked_order, stacked_prefix,
    valid_mapping_opt,
};
use crate::fastfield::{append_bytes, lemma_no_deletes_all_alive};
use crate::merger::IndexMerger;
use crate::schema::{DocId, MergeError};
use crate::segment::{SegmentOrdinal, SegmentReader, StoreReader};

verus! {

/// Writes the document store of the merged segment: payloads are gathered into
/// an open block, or whole blocks of a segment are appended as they are.
pub struct StoreWriter {
    pub compressor: u8,
    pub docs: Vec<Vec<u8>>,
    pub block_checkpoints: Vec<u32>,
    /// The number of payloads of the block that is still open.
    pub pending: u32,
}

pub open spec fn payloads(v: Seq<Vec<u8>>) -> Seq<Seq<u8>> {
    v.map_values(|d: Vec<u8>| d@)
}

/// The payload of a document of a segment.
pub open spec fn payload(readers: Seq<SegmentReader>, e: (DocId, SegmentOrdinal)) -> Seq<u8> {
    readers[e.1 as int].store.docs@[e.0 as int]@
}

pub open spec fn payloads_of(readers: Seq<SegmentReader>, order: Seq<(DocId, SegmentOrdinal)>) -> Seq<Seq<u8>> {
    order.map_values(|e: (DocId, SegmentOrdinal)| payload(readers, e))
}

/// The block state `(closed block checkpoints, payloads of the open block)` after
/// one more payload: a full open block is closed first.
pub open spec fn doc_step(cps: Seq<u32>, pending: u32) -> (Seq<u32>, u32) {
    if pending < u32::MAX {
        (cps, (pending + 1) as u32)
    } else {
        (cps.push(pending), 1)
    }
}

/// The block state after `n` more payloads, each written on its own.
pub open spec fn add_docs(cps: Seq<u32>, pending: u32, n: nat) -> (Seq<u32>, u32)
    decreases n,
{
    if n == 0 {
        (cps, pending)
    } else {
        let prev = add_docs(cps, pending, (n - 1) as nat);
        doc_step(prev.0, prev.1)
    }
}

/// The checkpoints once the open block is closed, if it holds anything.
pub open spec fn close_block(cps: Seq<u32>, pending: u32) -> Seq<u32> {
    if pending > 0 {
        cps.push(pending)
    } else {
        cps
    }
}

/// A segment whose blocks are copied as they are: nothing deleted, at least six
/// blocks, and the writer's compressor. Smaller stores are re-encoded, so as not
/// to leave many small blocks behind.
pub open spec fn stackable(r: SegmentReader, compressor: u8) -> bool {
    &&& r.alive_bitset.is_none()
    &&& r.store.block_checkpoints@.len() >= 6
    &&& r.store.compressor == compressor
}

/// The block state after the first `k` segments are stacked: a stackable segment
/// closes the open block and appends its own checkpoints; any other segment adds
/// each of its live payloads to the open block.
pub open spec fn stack_blocks(
    readers: Seq<SegmentReader>,
    compressor: u8,
    cps: Seq<u32>,
    pending: u32,
    k: int,
) -> (Seq<u32>, u32)
    decreases k,
{
    if k <= 0 {
        (cps, pending)
    } else {
        let prev = stack_blocks(readers, compressor, cps, pending, k - 1);
        let r = readers[k - 1];
        if stackable(r, compressor) {
            (close_block(prev.0, prev.1) + r.store.block_checkpoints@, 0)
        } else {
            add_docs(prev.0, prev.1, r.spec_num_docs())
        }
    }
}

impl StoreWriter {
    pub fn new(compressor: u8) -> (r: StoreWriter)
        ensures
            r.compressor == compressor,
            payloads(r.docs@) == Seq::<Seq<u8>>::empty(),
            r.block_checkpoints@.len() == 0,
            r.pending == 0,
    {
        let w = StoreWriter { compressor, docs: Vec::new(), block_checkpoints: Vec::new(), pending: 0 };
        assert(payloads(w.docs@) =~= Seq::<Seq<u8>>::empty());
        w
    }

    pub fn compressor(&self) -> (r: u8)
        ensures
            r == self.compressor,
    {
        self.compressor
    }

    /// Appends one payload to the open block; a full block is closed first.
    pub fn store_bytes(&mut self, doc: &Vec<u8>)
        ensures
            final(self).compressor == old(self).compressor,
            payloads(final(self).docs@) == payloads(old(self).docs@).push(doc@),
            (final(self).block_checkpoints@, final(self).pending) == doc_step(
                old(self).block_checkpoints@,
                old(self).pending,
            ),
    {
        let mut copy: Vec<u8> = Vec::new();
        append_bytes(&mut copy, doc);
        let ghost before = self.docs@;
        self.docs.push(copy);
        assert(payloads(self.docs@) =~= payloads(before).push(doc@));
        if self.pending < u32::MAX {
            self.pending = self.pending + 1;
        } else {
            self.block_checkpoints.push(self.pending);
            self.pending = 1;
        }
    }

    /// Closes the open block, if it holds anything.
    pub fn flush_block(&mut self)
        ensures
            final(self).compressor == old(self).compressor,
            final(self).docs@ == old(self).docs@,
            final(self).pending == 0,
            final(self).block_checkpoints@ == close_block(old(self).block_checkpoints@, old(self).pending),
    {
        if self.pending > 0 {
            self.block_checkpoints.push(self.pending);
            self.pending = 0;
        }
    }

    /// Appends the blocks of a store as they are, after closing the open block.
    pub fn stack(&mut self, store: &StoreReader)
        ensures
            final(self).compressor == old(self).compressor,
            payloads(final(self).docs@) == payloads(old(self).docs@) + payloads(store.docs@),
            final(self).block_checkpoints@ == close_block(old(self).block_checkpoints@, old(self).pending)
                + store.block_checkpoints@,
            final(self).pending == 0,
    {
        self.flush_block();
        let ghost docs0 = self.docs@;
        let ghost cps0 = self.block_checkpoints@;
        let mut i: usize = 0;
        while i < store.docs.len()
            invariant
                i <= store.docs@.len(),
                payloads(self.docs@) =~= payloads(docs0) + payloads(store.docs@.take(i as int)),
                self.block_checkpoints@ == cps0,
                self.compressor == old(self).compressor,
                self.pending == 0,
            decreases store.docs@.len() - i,
        {
            let mut copy: Vec<u8> = Vec::new();
            append_bytes(&mut copy, &store.docs[i]);
            let ghost before = self.docs@;
            self.docs.push(copy);
            assert(payloads(self.docs@) =~= payloads(before).push(store.docs@[i as int]@));
            assert(payloads(store.docs@.take(i + 1)) =~= payloads(store.docs@.take(i as int)).push(store.docs@[i as int]@));
            assert(store.docs@.take(i + 1) =~= store.docs@.take(i as int).push(store.docs@[i as int]));
            i = i + 1;
        }
        assert(store.docs@.take(store.docs@.len() as int) =~= store.docs@);
        let mut k: usize = 0;
        while k < store.block_checkpoints.len()
            invariant
                k <= store.block_checkpoints@.len(),
                self.block_checkpoints@ =~= cps0 + store.block_checkpoints@.take(k as int),
                payloads(self.docs@) == payloads(docs0) + payloads(store.docs@),
                self.compressor == old(self).compressor,
                self.pending == 0,
            decreases store.block_checkpoints@.len() - k,
        {
            self.block_checkpoints.push(store.block_checkpoints[k]);
            assert(store.block_checkpoints@.take(k + 1) =~= store.block_checkpoints@.take(k as int).push(
                store.block_checkpoints@[k as int],
            ));
            k = k + 1;
        }
        assert(store.block_checkpoints@.take(store.block_checkpoints@.len() as int) =~= store.block_checkpoints@);
    }
}

/// The entries of `m` that come from segment `s`.
pub open spec fn seg_count(m: Seq<(DocId, SegmentOrdinal)>, s: SegmentOrdinal) -> nat
    decreases m.len(),
{
    if m.len() == 0 {
        0
    } else {
        seg_count(m.drop_last(), s) + if m.last().1 == s {
            1nat
        } else {
            0nat
        }
    }
}

/// The live document that the store iterator of segment `e.1` hands out for entry
/// `i` of the mapping: the next one of that segment.
pub open spec fn iter_doc(readers: Seq<SegmentReader>, m: Seq<(DocId, SegmentOrdinal)>, i: int) -> DocId {
    readers[m[i].1 as int].alive_docs()[seg_count(m.take(i), m[i].1) as int]
}

pub open spec fn iter_payloads(readers: Seq<SegmentReader>, m: Seq<(DocId, SegmentOrdinal)>) -> Seq<Seq<u8>> {
    Seq::new(m.len(), |i: int| readers[m[i].1 as int].store.docs@[iter_doc(readers, m, i) as int]@)
}

/// Some segment's store runs out of live documents before the mapping does.
pub open spec fn store_exhausted(readers: Seq<SegmentReader>, m: Seq<(DocId, SegmentOrdinal)>) -> bool {
    exists|i: int| 0 <= i < m.len() && seg_count(m.take(i), (#[trigger] m[i]).1) >= readers[m[i].1 as int].alive_docs().len()
}

/// `seg_count` over one more entry.
pub proof fn lemma_seg_count_step(m: Seq<(DocId, SegmentOrdinal)>, i: int)
    requires
        0 <= i < m.len(),
    ensures
        forall|s: SegmentOrdinal| #[trigger] seg_count(m.take(i + 1), s) == seg_count(m.take(i), s) + if m[i].1 == s {
            1nat
        } else {
            0nat
        },
{
    assert(m.take(i + 1).drop_last() =~= m.take(i));
}

/// The store payloads of the mapping grow by one per entry.
proof fn lemma_iter_step(readers: Seq<SegmentReader>, m: Seq<(DocId, SegmentOrdinal)>, i: int, d: DocId)
    requires
        0 <= i < m.len(),
        iter_doc(readers, m.take(i + 1), i) == d,
    ensures
        iter_payloads(readers, m.take(i + 1)) == iter_payloads(readers, m.take(i)).push(
            readers[m[i].1 as int].store.docs@[d as int]@,
        ),
{
    assert forall|j: int| 0 <= j < i implies iter_doc(readers, m.take(i + 1), j) == iter_doc(readers, m.take(i), j) by {
        assert(m.take(i + 1).take(j) =~= m.take(i).take(j));
    }
    assert(iter_payloads(readers, m.take(i + 1)) =~= iter_payloads(readers, m.take(i)).push(
        readers[m[i].1 as int].store.docs@[d as int]@,
    ));
}

/// The live document at rank `alive_below(d).len()` is `d`.
proof fn lemma_alive_rank(r: SegmentReader, d: int)
    requires
        0 <= d < r.max_doc,
        r.spec_is_alive(d),
    ensures
        r.alive_below(d).len() < r.alive_docs().len(),
        r.alive_docs()[r.alive_below(d).len() as int] == d,
{
    crate::postings::lemma_alive_prefix(r, d + 1, r.max_doc as int);
    assert(r.alive_below(d + 1)[r.alive_below(d).len() as int] == d);
}

/// Below `max_doc`, the live documents are all of them.
proof fn lemma_alive_all(r: SegmentReader, d: int)
    requires
        0 <= d <= r.max_doc,
    ensures
        r.alive_below(d).len() <= r.alive_docs().len(),
        d == r.max_doc ==> r.alive_below(d).len() == r.alive_docs().len(),
{
    crate::postings::lemma_alive_prefix(r, d, r.max_doc as int);
}

impl IndexMerger {
    /// Writes the stored documents of the merged segment. Stacked segments with no
    /// deletes, enough blocks and the writer's compressor are appended block by
    /// block; otherwise each live payload is written on its own. With a doc-id
    /// mapping, each entry takes the next live payload of its segment.
    #[verifier::rlimit(100)]
    pub fn write_storable_fields(
        &self,
        store_writer: &mut StoreWriter,
        doc_id_mapping: &Option<Vec<(DocId, SegmentOrdinal)>>,
    ) -> (r: Result<(), MergeError>)
        requires
            self.wf(),
            valid_mapping_opt(self.readers@, *doc_id_mapping),
        ensures
            final(store_writer).compressor == old(store_writer).compressor,
            r matches Err(e) ==> e == MergeError::DataCorruption,
            doc_id_mapping matches Some(m) ==> (r.is_err() <==> store_exhausted(self.readers@, m@)),
            doc_id_mapping.is_some() && r.is_ok() ==> payloads(final(store_writer).docs@) == payloads(
                old(store_writer).docs@,
            ) + iter_payloads(self.readers@, doc_id_mapping.unwrap()@),
            doc_id_mapping.is_none() ==> r.is_ok() && payloads(final(store_writer).docs@) == payloads(
                old(store_writer).docs@,
            ) + payloads_of(self.readers@, stacked_order(self.readers@, self.readers@.len() as int)),
            doc_id_mapping.is_none() ==> (final(store_writer).block_checkpoints@, final(store_writer).pending)
                == stack_blocks(
                self.readers@,
                old(store_writer).compressor,
                old(store_writer).block_checkpoints@,
                old(store_writer).pending,
                self.readers@.len() as int,
            ),
            doc_id_mapping.is_some() && r.is_ok() ==> (final(store_writer).block_checkpoints@, final(store_writer).pending)
                == add_docs(
                old(store_writer).block_checkpoints@,
                old(store_writer).pending,
                doc_id_mapping.unwrap()@.len(),
            ),
    {
        let ghost readers = self.readers@;
        let ghost docs0 = store_writer.docs@;
        let ghost cps0 = store_writer.block_checkpoints@;
        let ghost pending0 = store_writer.pending;
        match doc_id_mapping {
            Some(mapping) => {
                let ghost m = mapping@;
                let mut next: Vec<u32> = Vec::new();
                let mut s: usize = 0;
                while s < self.readers.len()
                    invariant
                        readers == self.readers@,
                        s <= readers.len(),
                        next@.len() == s,
                        forall|x: int| 0 <= x < s ==> #[trigger] next@[x] == 0,
                    decreases readers.len() - s,
                {
                    next.push(0);
                    s = s + 1;
                }
                proof {
                    lemma_merge_order_alive(readers, *doc_id_mapping);
                    assert forall|x: SegmentOrdinal| #[trigger] seg_count(m.take(0), x) == 0 by {
                        assert(m.take(0).len() == 0);
                    }
                }
                let mut i: usize = 0;
                while i < mapping.len()
                    invariant
                        self.wf(),
                        readers == self.readers@,
                        m == mapping@,
                        doc_id_mapping.is_some() && doc_id_mapping.unwrap()@ == m,
                        forall|j: int| 0 <= j < m.len() ==> pair_alive(readers, #[trigger] m[j]),
                        i <= m.len(),
                        next@.len() == readers.len(),
                        forall|x: int| 0 <= x < readers.len() ==> {
                            &&& #[trigger] next@[x] <= readers[x].max_doc
                            &&& readers[x].alive_below(next@[x] as int).len() == seg_count(m.take(i as int), x as SegmentOrdinal)
                        },
                        forall|j: int| 0 <= j < i ==> seg_count(m.take(j), (#[trigger] m[j]).1) < readers[m[j].1 as int].alive_docs().len(),
                        store_writer.compressor == old(store_writer).compressor,
                        payloads(store_writer.docs@) == payloads(docs0) + iter_payloads(readers, m.take(i as int)),
                        docs0 == old(store_writer).docs@,
                        cps0 == old(store_writer).block_checkpoints@,
                        pending0 == old(store_writer).pending,
                        (store_writer.block_checkpoints@, store_writer.pending) == add_docs(cps0, pending0, i as nat),
                    decreases m.len() - i,
                {
                    let (_old_doc, seg) = mapping[i];
                    assert(pair_alive(readers, m[i as int]));
                    let reader = &self.readers[seg as usize];
                    assert(reader.wf(self.schema));
                    assert((seg as usize) as int == seg as int);
                    let mut d: u32 = next[seg as usize];
                    while d < reader.max_doc && !reader.is_alive(d)
                        invariant
                            reader.wf(self.schema),
                            d <= reader.max_doc,
                            reader.alive_below(d as int).len() == seg_count(m.take(i as int), seg),
                        decreases reader.max_doc - d,
                    {
                        d = d + 1;
                    }
                    if d == reader.max_doc {
                        proof {
                            lemma_alive_all(*reader, d as int);
                            assert(seg_count(m.take(i as int), m[i as int].1) >= readers[m[i as int].1 as int].alive_docs().len());
                            assert(store_exhausted(readers, m));
                        }
                        return Err(MergeError::DataCorruption);
                    }
                    proof {
                        lemma_alive_rank(*reader, d as int);
                        lemma_seg_count_step(m, i as int);
                        assert(iter_doc(readers, m, i as int) == d);
                        assert(iter_doc(readers, m.take(i + 1), i as int) == d) by {
                            assert(m.take(i + 1).take(i as int) =~= m.take(i as int));
                        }
                    }
                    let ghost before = store_writer.docs@;
                    store_writer.store_bytes(&reader.store.docs[d as usize]);
                    next.set(seg as usize, d + 1);
                    proof {
                        lemma_iter_step(readers, m, i as int, d);
                        assert forall|x: int| 0 <= x < readers.len() implies {
                            &&& #[trigger] next@[x] <= readers[x].max_doc
                            &&& readers[x].alive_below(next@[x] as int).len() == seg_count(m.take(i + 1), x as SegmentOrdinal)
                        } by {
                            if x != seg as int {
                                assert((x as SegmentOrdinal) != seg);
                            } else {
                                assert(reader.alive_below(d + 1).len() == reader.alive_below(d as int).len() + 1);
                            }
                        }
                    }
                    i = i + 1;
                }
                proof {
                    assert(m.take(m.len() as int) =~= m);
                }
                Ok(())
            },
            None => {
                let mut s: usize = 0;
                while s < self.readers.len()
                    invariant
                        self.wf(),
                        readers == self.readers@,
                        s <= readers.len(),
                        store_writer.compressor == old(store_writer).compressor,
                        docs0 == old(store_writer).docs@,
                        payloads(store_writer.docs@) == payloads(docs0) + payloads_of(readers, stacked_order(readers, s as int)),
                        cps0 == old(store_writer).block_checkpoints@,
                        pending0 == old(store_writer).pending,
                        (store_writer.block_checkpoints@, store_writer.pending) == stack_blocks(
                            readers,
                            store_writer.compressor,
                            cps0,
                            pending0,
                            s as int,
                        ),
                    decreases readers.len() - s,
                {
                    let reader = &self.readers[s];
                    assert(reader.wf(self.schema));
                    let ghost before = store_writer.docs@;
                    let ghost seg_start = (store_writer.block_checkpoints@, store_writer.pending);
                    proof {
                        lemma_stacked_step(readers, s as int, 0);
                        lemma_stacked_step(readers, s as int, reader.max_doc as int);
                    }
                    // Small stores are re-encoded rather than stacked, so as not to
                    // leave many small blocks behind.
                    if !reader.has_deletes() && reader.store.block_checkpoints.len() >= 6
                        && reader.store.compressor == store_writer.compressor() {
                        store_writer.stack(&reader.store);
                        proof {
                            lemma_no_deletes_all_alive(*reader, reader.max_doc as int);
                            let seg = crate::doc_order::seg_entries(*reader, s as int, reader.max_doc as int);
                            assert(payloads_of(readers, seg) =~= payloads(reader.store.docs@));
                            assert(stacked_order(readers, s + 1) == stacked_order(readers, s as int) + seg);
                            assert(payloads_of(readers, stacked_order(readers, s + 1)) =~= payloads_of(readers, stacked_order(readers, s as int)) + payloads_of(readers, seg));
                        }
                    } else {
                        let mut d: u32 = 0;
                        assert(reader.alive_below(0).len() == 0);
                        while d < reader.max_doc
                            invariant
                                self.wf(),
                                readers == self.readers@,
                                s < readers.len(),
                                *reader == readers[s as int],
                                reader.wf(self.schema),
                                d <= reader.max_doc,
                                store_writer.compressor == old(store_writer).compressor,
                                payloads(store_writer.docs@) == payloads(docs0) + payloads_of(readers, stacked_prefix(readers, s as int, d as int)),
                                (store_writer.block_checkpoints@, store_writer.pending) == add_docs(
                                    seg_start.0,
                                    seg_start.1,
                                    reader.alive_below(d as int).len(),
                                ),
                            decreases reader.max_doc - d,
                        {
                            proof {
                                lemma_stacked_step(readers, s as int, d as int);
                            }
                            if reader.is_alive(d) {
                                let ghost b = store_writer.docs@;
                                store_writer.store_bytes(&reader.store.docs[d as usize]);
                                proof {
                                    assert(payloads_of(readers, stacked_prefix(readers, s as int, d + 1)) =~= payloads_of(
                                        readers,
                                        stacked_prefix(readers, s as int, d as int),
                                    ).push(reader.store.docs@[d as int]@));
                                }
                            }
                            d = d + 1;
                        }
                    }
                    s = s + 1;
                }
                Ok(())
            },
        }
    }
}

} // verus!
