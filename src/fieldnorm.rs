use vstd::prelude::*;
use crate::doc_order::{
    lemma_merge_order_alive, lemma_stacked_step, merge_order, pair_alive, stacked_order, stacked_prefix,
    valid_mapping_opt,
};
use crate::merger::IndexMerger;
use crate::laws::sum_recorded_tokens;
use crate::schema::{DocId, FieldEntry};
use crate::segment::{SegmentOrdinal, SegmentReader};

verus! {

pub open spec fn pow2(n: nat) -> nat
    decreases n,
{
    if n == 0 {
        1
    } else {
        2 * pow2((n - 1) as nat)
    }
}

/// The field length that a fieldnorm id stands for: ids below 40 are exact, and
/// above that each id stands for a length with a 4-bit mantissa.
pub open spec fn fieldnorm_of(id: u8) -> nat {
    if id < 24 {
        id as nat
    } else {
        let i = id - 24;
        let bits = (i % 8) as nat;
        if i < 8 {
            24 + bits
        } else {
            24 + (8 + bits) * pow2((i / 8 - 1) as nat)
        }
    }
}

/// Decodes a fieldnorm id into the field length it stands for.
pub fn id_to_fieldnorm(id: u8) -> (r: u32)
    ensures
        r == fieldnorm_of(id),
{
    if id < 24 {
        return id as u32;
    }
    let i = id - 24;
    let bits = (i % 8) as u32;
    if i < 8 {
        return 24 + bits;
    }
    let shift = i / 8 - 1;
    let mut v: u32 = 8 + bits;
    let mut k: u8 = 0;
    proof {
        lemma_pow2_27();
        assert(pow2(0) == 1);
    }
    while k < shift
        invariant
            k <= shift,
            shift <= 27,
            bits < 8,
            v == (8 + bits) * pow2(k as nat),
            v <= 15 * 0x800_0000,
            pow2(27) == 0x800_0000,
        decreases shift - k,
    {
        proof {
            lemma_pow2_mono((k + 1) as nat, 27);
            assert(pow2((k + 1) as nat) == 2 * pow2(k as nat));
            let p = pow2(k as nat);
            let q = pow2((k + 1) as nat);
            assert((8 + bits) * q <= 15 * q) by (nonlinear_arith)
                requires
                    bits < 8,
            ;
            assert(v * 2 == (8 + bits) * q) by (nonlinear_arith)
                requires
                    v == (8 + bits) * p,
                    q == 2 * p,
            ;
        }
        v = v * 2;
        k = k + 1;
    }
    24 + v
}

/// The largest shift a fieldnorm id uses.
proof fn lemma_pow2_27()
    ensures
        pow2(27) == 0x800_0000,
{
    reveal_with_fuel(pow2, 28);
}

/// Powers of two grow with the exponent.
proof fn lemma_pow2_mono(a: nat, b: nat)
    requires
        a <= b,
    ensures
        pow2(a) <= pow2(b),
    decreases b - a,
{
    if a < b {
        lemma_pow2_mono(a, (b - 1) as nat);
    }
}

pub open spec fn sat(x: int) -> u64 {
    if x > u64::MAX {
        u64::MAX
    } else {
        x as u64
    }
}

/// The field lengths of the live documents below `n`, summed.
pub open spec fn norm_sum(r: SegmentReader, field: int, n: int) -> nat
    decreases n,
{
    if n <= 0 {
        0
    } else {
        norm_sum(r, field, n - 1) + if r.spec_is_alive(n - 1) {
            fieldnorm_of(r.fields@[field].fieldnorm_ids@[n - 1])
        } else {
            0
        }
    }
}

/// The tokens of a segment's field: the recorded count when nothing was deleted,
/// else the field lengths of the live documents as the fieldnorms give them.
pub open spec fn seg_tokens(r: SegmentReader, field: int) -> nat {
    if r.alive_bitset.is_none() {
        r.fields@[field].total_num_tokens as nat
    } else {
        norm_sum(r, field, r.max_doc as int)
    }
}

pub open spec fn total_tokens(readers: Seq<SegmentReader>, field: int, k: int) -> nat
    decreases k,
{
    if k <= 0 {
        0
    } else {
        total_tokens(readers, field, k - 1) + seg_tokens(readers[k - 1], field)
    }
}

pub open spec fn norms_ok(r: SegmentReader, field: int) -> bool {
    &&& 0 <= field < r.fields@.len()
    &&& r.fields@[field].fieldnorm_ids@.len() == r.max_doc
    &&& match r.alive_bitset {
        Some(b) => b@.len() == r.max_doc,
        None => true,
    }
}

fn sat_add(a: u64, b: u64) -> (r: u64)
    ensures
        r == sat(a + b),
{
    if a > u64::MAX - b {
        u64::MAX
    } else {
        a + b
    }
}

/// The number of tokens of a field over the merged segment, saturated at `u64::MAX`.
/// Exact when no segment has deletes; otherwise the deleted documents are left out
/// through their fieldnorms.
pub fn compute_total_num_tokens(readers: &Vec<SegmentReader>, field: usize) -> (r: u64)
    requires
        forall|i: int| 0 <= i < readers@.len() ==> norms_ok(#[trigger] readers@[i], field as int),
    ensures
        r == sat(total_tokens(readers@, field as int, readers@.len() as int) as int),
        (forall|i: int| 0 <= i < readers@.len() ==> (#[trigger] readers@[i]).alive_bitset.is_none())
            && sum_recorded_tokens(readers@, field as int, readers@.len() as int) <= u64::MAX
            ==> r == sum_recorded_tokens(readers@, field as int, readers@.len() as int),
{
    proof {
        if forall|i: int| 0 <= i < readers@.len() ==> (#[trigger] readers@[i]).alive_bitset.is_none() {
            crate::laws::law_token_count_without_deletes(readers@, field as int, readers@.len() as int);
        }
    }
    let mut total_tokens_acc: u64 = 0;
    let mut s: usize = 0;
    while s < readers.len()
        invariant
            forall|i: int| 0 <= i < readers@.len() ==> norms_ok(#[trigger] readers@[i], field as int),
            s <= readers@.len(),
            total_tokens_acc == sat(total_tokens(readers@, field as int, s as int) as int),
        decreases readers@.len() - s,
    {
        let reader = &readers[s];
        assert(norms_ok(readers@[s as int], field as int));
        if reader.has_deletes() {
            // With deletes, the fieldnorms of the live documents stand for their tokens.
            let ids = &reader.fields[field].fieldnorm_ids;
            let mut d: u32 = 0;
            let mut seg_total: u64 = 0;
            while d < reader.max_doc
                invariant
                    norms_ok(*reader, field as int),
                    ids == reader.fields@[field as int].fieldnorm_ids,
                    d <= reader.max_doc,
                    seg_total == sat(norm_sum(*reader, field as int, d as int) as int),
                decreases reader.max_doc - d,
            {
                if reader.is_alive(d) {
                    let n = id_to_fieldnorm(ids[d as usize]);
                    seg_total = sat_add(seg_total, n as u64);
                }
                d = d + 1;
            }
            total_tokens_acc = sat_add(total_tokens_acc, seg_total);
        } else {
            total_tokens_acc = sat_add(total_tokens_acc, reader.fields[field].total_num_tokens);
        }
        s = s + 1;
    }
    total_tokens_acc
}

/// The fieldnorms of one field of the merged segment: one byte per new doc id.
#[derive(Clone, Debug)]
pub struct MergedFieldNorms {
    pub field: usize,
    pub data: Vec<u8>,
}

/// The fields among the first `k` of the schema that keep fieldnorms, in order.
pub open spec fn fieldnorm_field_ids(fields: Seq<FieldEntry>, k: int) -> Seq<usize>
    decreases k,
{
    if k <= 0 {
        seq![]
    } else if fields[k - 1].fieldnorms {
        fieldnorm_field_ids(fields, k - 1).push((k - 1) as usize)
    } else {
        fieldnorm_field_ids(fields, k - 1)
    }
}

pub open spec fn norms_of(readers: Seq<SegmentReader>, field: int, order: Seq<(DocId, SegmentOrdinal)>) -> Seq<u8> {
    order.map_values(|e: (DocId, SegmentOrdinal)| readers[e.1 as int].fields@[field].fieldnorm_ids@[e.0 as int])
}

impl IndexMerger {
    /// Rewrites the fieldnorms of every field that keeps them, in the order of the
    /// new doc ids.
    pub fn write_fieldnorms(&self, doc_id_mapping: &Option<Vec<(DocId, SegmentOrdinal)>>) -> (r: Vec<MergedFieldNorms>)
        requires
            self.wf(),
            valid_mapping_opt(self.readers@, *doc_id_mapping),
        ensures
            r@.map_values(|n: MergedFieldNorms| n.field) == fieldnorm_field_ids(
                self.schema.fields@,
                self.schema.fields@.len() as int,
            ),
            forall|i: int| 0 <= i < r@.len() ==> (#[trigger] r@[i]).data@ == norms_of(
                self.readers@,
                r@[i].field as int,
                merge_order(self.readers@, *doc_id_mapping),
            ),
    {
        let ghost readers = self.readers@;
        let mut out: Vec<MergedFieldNorms> = Vec::new();
        let mut field: usize = 0;
        proof {
            lemma_merge_order_alive(readers, *doc_id_mapping);
        }
        while field < self.schema.fields.len()
            invariant
                self.wf(),
                readers == self.readers@,
                valid_mapping_opt(readers, *doc_id_mapping),
                forall|i: int| 0 <= i < merge_order(readers, *doc_id_mapping).len() ==> pair_alive(
                    readers,
                    #[trigger] merge_order(readers, *doc_id_mapping)[i],
                ),
                field <= self.schema.fields@.len(),
                out@.map_values(|n: MergedFieldNorms| n.field) == fieldnorm_field_ids(self.schema.fields@, field as int),
                forall|i: int| 0 <= i < out@.len() ==> (#[trigger] out@[i]).data@ == norms_of(
                    readers,
                    out@[i].field as int,
                    merge_order(readers, *doc_id_mapping),
                ),
            decreases self.schema.fields@.len() - field,
        {
            if self.schema.fields[field].fieldnorms {
                let ghost f = field as int;
                let mut data: Vec<u8> = Vec::new();
                match doc_id_mapping {
                    Some(mapping) => {
                        let mut i: usize = 0;
                        while i < mapping.len()
                            invariant
                                self.wf(),
                                readers == self.readers@,
                                f == field,
                                field < self.schema.fields@.len(),
                                merge_order(readers, *doc_id_mapping) == mapping@,
                                forall|j: int| 0 <= j < mapping@.len() ==> pair_alive(readers, #[trigger] mapping@[j]),
                                i <= mapping@.len(),
                                data@ =~= norms_of(readers, f, mapping@.take(i as int)),
                            decreases mapping@.len() - i,
                        {
                            let (doc, seg) = mapping[i];
                            assert(pair_alive(readers, mapping@[i as int]));
                            let reader = &self.readers[seg as usize];
                            assert(reader.wf(self.schema));
                            assert(reader.fields@[f].wf(self.schema.fields@[f], reader.max_doc as int));
                            data.push(reader.fields[field].fieldnorm_ids[doc as usize]);
                            assert(mapping@.take(i + 1) =~= mapping@.take(i as int).push(mapping@[i as int]));
                            i = i + 1;
                        }
                        assert(mapping@.take(mapping@.len() as int) =~= mapping@);
                    },
                    None => {
                        let mut s: usize = 0;
                        while s < self.readers.len()
                            invariant
                                self.wf(),
                                readers == self.readers@,
                                f == field,
                                field < self.schema.fields@.len(),
                                s <= readers.len(),
                                data@ =~= norms_of(readers, f, stacked_order(readers, s as int)),
                            decreases readers.len() - s,
                        {
                            let reader = &self.readers[s];
                            assert(reader.wf(self.schema));
                            assert(reader.fields@[f].wf(self.schema.fields@[f], reader.max_doc as int));
                            let ids = &reader.fields[field].fieldnorm_ids;
                            let mut d: u32 = 0;
                            proof {
                                lemma_stacked_step(readers, s as int, 0);
                            }
                            while d < reader.max_doc
                                invariant
                                    self.wf(),
                                    readers == self.readers@,
                                    s < readers.len(),
                                    *reader == readers[s as int],
                                    f == field,
                                    field < self.schema.fields@.len(),
                                    reader.fields@[f].wf(self.schema.fields@[f], reader.max_doc as int),
                                    ids == reader.fields@[f].fieldnorm_ids,
                                    d <= reader.max_doc,
                                    data@ =~= norms_of(readers, f, stacked_prefix(readers, s as int, d as int)),
                                decreases reader.max_doc - d,
                            {
                                proof {
                                    lemma_stacked_step(readers, s as int, d as int);
                                }
                                if reader.is_alive(d) {
                                    data.push(ids[d as usize]);
                                }
                                d = d + 1;
                            }
                            proof {
                                lemma_stacked_step(readers, s as int, 0);
                            }
                            s = s + 1;
                        }
                    },
                }
                let ghost old_out = out@;
                out.push(MergedFieldNorms { field, data });
                proof {
                    assert(out@.map_values(|n: MergedFieldNorms| n.field) =~= old_out.map_values(
                        |n: MergedFieldNorms| n.field,
                    ).push(field));
                }
            }
            field = field + 1;
        }
        out
    }
}

} // verus!
