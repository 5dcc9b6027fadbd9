use vstd::prelude::*;
use crate::doc_order::{
    lemma_alive_below, sum_live, lemma_merge_order_alive, lemma_stacked_order, lemma_stacked_step, merge_order, pair_alive, seg_entries,
    stacked_order, stacked_prefix, valid_mapping_opt,
};
use crate::merger::IndexMerger;
use crate::schema::{Cardinality, DocId, FieldEntry, FieldKind, MergeError, Schema};
use crate::segment::{SegmentOrdinal, SegmentReader};
use crate::sort_order::{is_max, is_min, min_max_of};
use crate::term_ordinals::{max_of_all, TermOrdinalMapping};

verus! {

/// A u64 column of the merged segment, with the bounds it is bit-packed with.
#[derive(Clone, Debug)]
pub struct U64Column {
    pub min_value: u64,
    pub max_value: u64,
    pub vals: Vec<u64>,
}

/// The single value of a document in a single-valued fast field.
pub open spec fn single_value(readers: Seq<SegmentReader>, field: int, e: (DocId, SegmentOrdinal)) -> u64 {
    readers[e.1 as int].fields@[field].values@[e.0 as int]@[0]
}

pub open spec fn single_values_of(readers: Seq<SegmentReader>, field: int, order: Seq<(DocId, SegmentOrdinal)>) -> Seq<u64> {
    order.map_values(|e: (DocId, SegmentOrdinal)| single_value(readers, field, e))
}

/// The values of the live documents of one segment, in doc-id order.
pub open spec fn alive_single_values(r: SegmentReader, field: int) -> Seq<u64> {
    r.alive_docs().map_values(|d: DocId| r.fields@[field].values@[d as int]@[0])
}

/// Without a delete bitset every document is live.
pub proof fn lemma_no_deletes_all_alive(r: SegmentReader, n: int)
    requires
        r.alive_bitset.is_none(),
        0 <= n <= r.max_doc,
    ensures
        r.alive_below(n) =~= Seq::new(n as nat, |i: int| i as DocId),
    decreases n,
{
    if n > 0 {
        lemma_no_deletes_all_alive(r, n - 1);
    }
}

/// The least and the greatest value of the live documents of a segment, if it has any.
fn compute_min_max_val(reader: &SegmentReader, field: usize) -> (r: Option<(u64, u64)>)
    requires
        field < reader.fields@.len(),
        reader.fields@[field as int].values@.len() == reader.max_doc,
        forall|d: int| 0 <= d < reader.max_doc ==> (#[trigger] reader.fields@[field as int].values@[d])@.len() == 1,
        match reader.alive_bitset {
            Some(b) => b@.len() == reader.max_doc,
            None => true,
        },
    ensures
        match r {
            None => alive_single_values(*reader, field as int).len() == 0,
            Some((lo, hi)) => is_min(lo, alive_single_values(*reader, field as int))
                && is_max(hi, alive_single_values(*reader, field as int)),
        },
{
    let ghost f = field as int;
    if reader.max_doc == 0 {
        assert(reader.alive_below(0).len() == 0);
        return None;
    }
    let values = &reader.fields[field].values;
    let mut vals: Vec<u64> = Vec::new();
    let mut d: u32 = 0;
    if reader.has_deletes() {
        // Deleted documents may hold the bounds: look at the live ones only.
        while d < reader.max_doc
            invariant
                field < reader.fields@.len(),
                f == field,
                values == reader.fields@[f].values,
                values@.len() == reader.max_doc,
                forall|d: int| 0 <= d < reader.max_doc ==> (#[trigger] values@[d])@.len() == 1,
                match reader.alive_bitset {
                    Some(b) => b@.len() == reader.max_doc,
                    None => true,
                },
                d <= reader.max_doc,
                vals@ =~= reader.alive_below(d as int).map_values(|x: DocId| values@[x as int]@[0]),
            decreases reader.max_doc - d,
        {
            if reader.is_alive(d) {
                vals.push(values[d as usize][0]);
            }
            d = d + 1;
        }
    } else {
        while d < reader.max_doc
            invariant
                field < reader.fields@.len(),
                f == field,
                values == reader.fields@[f].values,
                values@.len() == reader.max_doc,
                forall|d: int| 0 <= d < reader.max_doc ==> (#[trigger] values@[d])@.len() == 1,
                d <= reader.max_doc,
                vals@ =~= Seq::new(d as nat, |x: int| values@[x]@[0]),
            decreases reader.max_doc - d,
        {
            vals.push(values[d as usize][0]);
            d = d + 1;
        }
        proof {
            lemma_no_deletes_all_alive(*reader, reader.max_doc as int);
        }
    }
    assert(vals@ =~= alive_single_values(*reader, f));
    min_max_of(&vals)
}

/// The single values of the stacking order grow segment by segment.
proof fn lemma_stacked_single_values(readers: Seq<SegmentReader>, field: int, s: int)
    requires
        0 <= s < readers.len() <= u32::MAX,
    ensures
        single_values_of(readers, field, stacked_order(readers, s + 1)) =~= single_values_of(
            readers,
            field,
            stacked_order(readers, s),
        ) + alive_single_values(readers[s], field),
{
    let a = stacked_order(readers, s);
    let b = seg_entries(readers[s], s, readers[s].max_doc as int);
    assert(stacked_order(readers, s + 1) == a + b);
    assert(single_values_of(readers, field, b) =~= alive_single_values(readers[s], field));
}

/// The bounds of two sequences give the bounds of their concatenation.
proof fn lemma_min_max_concat(a: Seq<u64>, b: Seq<u64>, la: u64, ha: u64, lb: u64, hb: u64)
    requires
        is_min(la, a),
        is_max(ha, a),
        is_min(lb, b),
        is_max(hb, b),
    ensures
        is_min(if la <= lb { la } else { lb }, a + b),
        is_max(if ha >= hb { ha } else { hb }, a + b),
{
    let i = choose|i: int| 0 <= i < a.len() && a[i] == la;
    let j = choose|j: int| 0 <= j < b.len() && b[j] == lb;
    let k = choose|k: int| 0 <= k < a.len() && a[k] == ha;
    let l = choose|l: int| 0 <= l < b.len() && b[l] == hb;
    assert((a + b)[i] == la && (a + b)[a.len() + j] == lb);
    assert((a + b)[k] == ha && (a + b)[a.len() + l] == hb);
    assert forall|x: int| 0 <= x < (a + b).len() implies (if la <= lb { la } else { lb }) <= (a + b)[x]
        && (a + b)[x] <= (if ha >= hb { ha } else { hb }) by {
        if x < a.len() {
            assert((a + b)[x] == a[x]);
        } else {
            assert((a + b)[x] == b[x - a.len()]);
        }
    }
}

pub open spec fn min_max_spec(column: U64Column, all: Seq<u64>) -> bool {
    if all.len() == 0 {
        column.min_value == 0 && column.max_value == 0
    } else {
        is_min(column.min_value, all) && is_max(column.max_value, all)
    }
}

impl IndexMerger {
    /// Rewrites a single-valued u64 fast field: one value per new doc id, bit-packed
    /// between the least and the greatest live value.
    pub fn write_single_fast_field(
        &self,
        field: usize,
        doc_id_mapping: &Option<Vec<(DocId, SegmentOrdinal)>>,
    ) -> (r: U64Column)
        requires
            self.wf(),
            field < self.schema.fields@.len(),
            self.schema.fields@[field as int].kind == FieldKind::Numeric(Some(Cardinality::SingleValue)),
            valid_mapping_opt(self.readers@, *doc_id_mapping),
        ensures
            r.vals@ == single_values_of(self.readers@, field as int, merge_order(self.readers@, *doc_id_mapping)),
            min_max_spec(
                r,
                single_values_of(self.readers@, field as int, stacked_order(self.readers@, self.readers@.len() as int)),
            ),
    {
        let ghost readers = self.readers@;
        let ghost f = field as int;
        let mut acc: Option<(u64, u64)> = None;
        let mut s: usize = 0;
        while s < self.readers.len()
            invariant
                self.wf(),
                readers == self.readers@,
                f == field,
                field < self.schema.fields@.len(),
                self.schema.fields@[f].kind == FieldKind::Numeric(Some(Cardinality::SingleValue)),
                s <= readers.len(),
                match acc {
                    None => single_values_of(readers, f, stacked_order(readers, s as int)).len() == 0,
                    Some((lo, hi)) => is_min(lo, single_values_of(readers, f, stacked_order(readers, s as int)))
                        && is_max(hi, single_values_of(readers, f, stacked_order(readers, s as int))),
                },
            decreases readers.len() - s,
        {
            let reader = &self.readers[s];
            assert(reader.wf(self.schema));
            assert(reader.fields@[f].wf(self.schema.fields@[f], reader.max_doc as int));
            let seg = compute_min_max_val(reader, field);
            proof {
                lemma_stacked_single_values(readers, f, s as int);
            }
            acc = match (acc, seg) {
                (None, x) => x,
                (x, None) => x,
                (Some((la, ha)), Some((lb, hb))) => {
                    proof {
                        lemma_min_max_concat(
                            single_values_of(readers, f, stacked_order(readers, s as int)),
                            alive_single_values(readers[s as int], f),
                            la,
                            ha,
                            lb,
                            hb,
                        );
                    }
                    Some((if la <= lb { la } else { lb }, if ha >= hb { ha } else { hb }))
                },
            };
            proof {
                if acc.is_some() && single_values_of(readers, f, stacked_order(readers, s as int)).len() == 0 {
                    assert(single_values_of(readers, f, stacked_order(readers, s as int)) + alive_single_values(readers[s as int], f)
                        =~= alive_single_values(readers[s as int], f));
                }
                if acc.is_some() && alive_single_values(readers[s as int], f).len() == 0 {
                    assert(single_values_of(readers, f, stacked_order(readers, s as int)) + alive_single_values(readers[s as int], f)
                        =~= single_values_of(readers, f, stacked_order(readers, s as int)));
                }
            }
            s = s + 1;
        }
        let (min_value, max_value) = match acc {
            Some(p) => p,
            None => (0, 0),
        };
        let mut vals: Vec<u64> = Vec::new();
        proof {
            lemma_merge_order_alive(readers, *doc_id_mapping);
        }
        match doc_id_mapping {
            Some(mapping) => {
                let mut i: usize = 0;
                while i < mapping.len()
                    invariant
                        self.wf(),
                        readers == self.readers@,
                        f == field,
                        field < self.schema.fields@.len(),
                        self.schema.fields@[f].kind == FieldKind::Numeric(Some(Cardinality::SingleValue)),
                        merge_order(readers, *doc_id_mapping) == mapping@,
                        forall|j: int| 0 <= j < mapping@.len() ==> pair_alive(readers, #[trigger] mapping@[j]),
                        i <= mapping@.len(),
                        vals@ =~= single_values_of(readers, f, mapping@.take(i as int)),
                    decreases mapping@.len() - i,
                {
                    let (doc, seg) = mapping[i];
                    assert(pair_alive(readers, mapping@[i as int]));
                    let reader = &self.readers[seg as usize];
                    assert(reader.wf(self.schema));
                    assert(reader.fields@[f].wf(self.schema.fields@[f], reader.max_doc as int));
                    assert(reader.fields@[f].values@[doc as int]@.len() == 1);
                    vals.push(reader.fields[field].values[doc as usize][0]);
                    assert(mapping@.take(i + 1) =~= mapping@.take(i as int).push(mapping@[i as int]));
                    i = i + 1;
                }
                assert(mapping@.take(mapping@.len() as int) =~= mapping@);
            },
            None => {
                let mut s: usize = 0;
                while s < self.readers.len()
                    invariant
                        self.wf(),
                        readers == self.readers@,
                        f == field,
                        field < self.schema.fields@.len(),
                        self.schema.fields@[f].kind == FieldKind::Numeric(Some(Cardinality::SingleValue)),
                        s <= readers.len(),
                        vals@ =~= single_values_of(readers, f, stacked_order(readers, s as int)),
                    decreases readers.len() - s,
                {
                    let reader = &self.readers[s];
                    assert(reader.wf(self.schema));
                    assert(reader.fields@[f].wf(self.schema.fields@[f], reader.max_doc as int));
                    let values = &reader.fields[field].values;
                    let mut d: u32 = 0;
                    proof {
                        lemma_stacked_step(readers, s as int, 0);
                    }
                    while d < reader.max_doc
                        invariant
                            self.wf(),
                            readers == self.readers@,
                            s < readers.len(),
                            *reader == readers[s as int],
                            f == field,
                            field < self.schema.fields@.len(),
                            reader.fields@[f].wf(self.schema.fields@[f], reader.max_doc as int),
                            self.schema.fields@[f].kind == FieldKind::Numeric(Some(Cardinality::SingleValue)),
                            values == reader.fields@[f].values,
                            d <= reader.max_doc,
                            vals@ =~= single_values_of(readers, f, stacked_prefix(readers, s as int, d as int)),
                        decreases reader.max_doc - d,
                    {
                        proof {
                            lemma_stacked_step(readers, s as int, d as int);
                        }
                        if reader.is_alive(d) {
                            assert(values@[d as int]@.len() == 1);
                            vals.push(values[d as usize][0]);
                        }
                        d = d + 1;
                    }
                    proof {
                        lemma_stacked_step(readers, s as int, 0);
                    }
                    s = s + 1;
                }
            },
        }
        U64Column { min_value, max_value, vals }
    }
}

/// The number of values (or bytes, with `use_bytes`) of a document in a multi-valued field.
pub open spec fn doc_len(readers: Seq<SegmentReader>, field: int, use_bytes: bool, e: (DocId, SegmentOrdinal)) -> nat {
    if use_bytes {
        readers[e.1 as int].fields@[field].bytes@[e.0 as int]@.len()
    } else {
        readers[e.1 as int].fields@[field].values@[e.0 as int]@.len()
    }
}

/// The number of values of the documents of `order`, together.
pub open spec fn sum_lens(readers: Seq<SegmentReader>, field: int, use_bytes: bool, order: Seq<(DocId, SegmentOrdinal)>) -> nat
    decreases order.len(),
{
    if order.len() == 0 {
        0
    } else {
        sum_lens(readers, field, use_bytes, order.drop_last()) + doc_len(readers, field, use_bytes, order.last())
    }
}

/// The offsets column of a multi-valued field: `n + 1` entries, where entry `i`
/// is the number of values of the first `i` documents.
pub open spec fn offsets_of(readers: Seq<SegmentReader>, field: int, use_bytes: bool, order: Seq<(DocId, SegmentOrdinal)>) -> Seq<u64> {
    Seq::new(order.len() + 1, |i: int| sum_lens(readers, field, use_bytes, order.take(i)) as u64)
}

/// Concatenates what `f` gives for each element, in order.
pub open spec fn flat_map<A, B>(s: Seq<A>, f: spec_fn(A) -> Seq<B>) -> Seq<B>
    decreases s.len(),
{
    if s.len() == 0 {
        seq![]
    } else {
        flat_map(s.drop_last(), f) + f(s.last())
    }
}

/// `flat_map` of a sequence extended by one element.
pub proof fn lemma_flat_map_push<A, B>(s: Seq<A>, x: A, f: spec_fn(A) -> Seq<B>)
    ensures
        flat_map(s.push(x), f) == flat_map(s, f) + f(x),
{
    assert(s.push(x).drop_last() =~= s);
}

/// `sum_lens` of a sequence extended by one document.
proof fn lemma_sum_lens_push(readers: Seq<SegmentReader>, field: int, ub: bool, s: Seq<(DocId, SegmentOrdinal)>, x: (DocId, SegmentOrdinal))
    ensures
        sum_lens(readers, field, ub, s.push(x)) == sum_lens(readers, field, ub, s) + doc_len(readers, field, ub, x),
{
    assert(s.push(x).drop_last() =~= s);
}

/// A field whose documents have few enough values for offsets to fit in a u64.
pub open spec fn lens_bounded(readers: Seq<SegmentReader>, field: int) -> bool {
    forall|s: int, d: int| 0 <= s < readers.len() && 0 <= d < readers[s].max_doc ==> {
        &&& (#[trigger] readers[s].fields@[field].values@[d])@.len() <= u32::MAX
        &&& readers[s].fields@[field].bytes@[d]@.len() <= u32::MAX
    }
}

/// Each document has at most `u32::MAX` values, which bounds their sum.
proof fn lemma_sum_lens_bound(readers: Seq<SegmentReader>, field: int, ub: bool, s: Seq<(DocId, SegmentOrdinal)>)
    requires
        lens_bounded(readers, field),
        forall|i: int| 0 <= i < s.len() ==> pair_alive(readers, #[trigger] s[i]),
    ensures
        sum_lens(readers, field, ub, s) <= s.len() * 0x1_0000_0000,
    decreases s.len(),
{
    if s.len() > 0 {
        assert(pair_alive(readers, s[s.len() - 1]));
        lemma_sum_lens_bound(readers, field, ub, s.drop_last());
        assert(doc_len(readers, field, ub, s.last()) <= u32::MAX);
    }
}

impl IndexMerger {
    /// Writes the offsets column of a multi-valued field (u64 values, or bytes with
    /// `use_bytes`), bit-packed between 0 and the total number of live values.
    fn write_1_n_fast_field_idx_generic(
        &self,
        field: usize,
        use_bytes: bool,
        doc_id_mapping: &Option<Vec<(DocId, SegmentOrdinal)>>,
    ) -> (r: U64Column)
        requires
            self.wf(),
            field < self.schema.fields@.len(),
            valid_mapping_opt(self.readers@, *doc_id_mapping),
        ensures
            r.min_value == 0,
            r.max_value == sum_lens(self.readers@, field as int, use_bytes, stacked_order(self.readers@, self.readers@.len() as int)),
            r.vals@ == offsets_of(self.readers@, field as int, use_bytes, merge_order(self.readers@, *doc_id_mapping)),
    {
        let ghost readers = self.readers@;
        let ghost f = field as int;
        proof {
            assert forall|s: int, d: int| 0 <= s < readers.len() && 0 <= d < readers[s].max_doc implies {
                &&& (#[trigger] readers[s].fields@[f].values@[d])@.len() <= u32::MAX
                &&& readers[s].fields@[f].bytes@[d]@.len() <= u32::MAX
            } by {
                assert(readers[s].wf(self.schema));
                assert(readers[s].fields@[f].wf(self.schema.fields@[f], readers[s].max_doc as int));
            }
            lemma_stacked_order(readers, readers.len() as int);
            lemma_merge_order_alive(readers, *doc_id_mapping);
            lemma_sum_lens_bound(readers, f, use_bytes, stacked_order(readers, readers.len() as int));
            lemma_sum_lens_bound(readers, f, use_bytes, merge_order(readers, *doc_id_mapping));
        }
        // First pass: the number of values, which bounds the offsets.
        let mut total_num_vals: u64 = 0;
        let mut s: usize = 0;
        while s < self.readers.len()
            invariant
                self.wf(),
                readers == self.readers@,
                f == field,
                field < self.schema.fields@.len(),
                lens_bounded(readers, f),
                s <= readers.len(),
                total_num_vals == sum_lens(readers, f, use_bytes, stacked_order(readers, s as int)),
            decreases readers.len() - s,
        {
            let reader = &self.readers[s];
            assert(reader.wf(self.schema));
            assert(reader.fields@[f].wf(self.schema.fields@[f], reader.max_doc as int));
            let mut d: u32 = 0;
            proof {
                lemma_stacked_step(readers, s as int, 0);
            }
            while d < reader.max_doc
                invariant
                    self.wf(),
                    readers == self.readers@,
                    s < readers.len(),
                    *reader == readers[s as int],
                    f == field,
                    field < self.schema.fields@.len(),
                    lens_bounded(readers, f),
                    reader.fields@[f].wf(self.schema.fields@[f], reader.max_doc as int),
                    d <= reader.max_doc,
                    total_num_vals == sum_lens(readers, f, use_bytes, stacked_prefix(readers, s as int, d as int)),
                decreases reader.max_doc - d,
            {
                proof {
                    lemma_stacked_step(readers, s as int, d as int);
                    lemma_stacked_prefix_facts(readers, s as int, d + 1);
                    lemma_sum_lens_bound(readers, f, use_bytes, stacked_prefix(readers, s as int, d + 1));
                }
                if reader.is_alive(d) {
                    let n = if use_bytes {
                        reader.fields[field].bytes[d as usize].len()
                    } else {
                        reader.fields[field].values[d as usize].len()
                    };
                    proof {
                        lemma_sum_lens_push(readers, f, use_bytes, stacked_prefix(readers, s as int, d as int), (d, s as u32));
                    }
                    total_num_vals = total_num_vals + n as u64;
                }
                d = d + 1;
            }
            proof {
                lemma_stacked_step(readers, s as int, 0);
            }
            s = s + 1;
        }
        // Second pass: the offsets, in the order of the new doc ids.
        let mut vals: Vec<u64> = Vec::new();
        let mut offset: u64 = 0;
        match doc_id_mapping {
            Some(mapping) => {
                let mut i: usize = 0;
                while i < mapping.len()
                    invariant
                        self.wf(),
                        readers == self.readers@,
                        f == field,
                        field < self.schema.fields@.len(),
                        lens_bounded(readers, f),
                        merge_order(readers, *doc_id_mapping) == mapping@,
                        mapping@.len() == self.max_doc,
                        forall|j: int| 0 <= j < mapping@.len() ==> pair_alive(readers, #[trigger] mapping@[j]),
                        i <= mapping@.len(),
                        offset == sum_lens(readers, f, use_bytes, mapping@.take(i as int)),
                        vals@ == partial_offsets(readers, f, use_bytes, mapping@.take(i as int)),
                    decreases mapping@.len() - i,
                {
                    let (doc, seg) = mapping[i];
                    assert(pair_alive(readers, mapping@[i as int]));
                    let reader = &self.readers[seg as usize];
                    assert(reader.wf(self.schema));
                    assert(reader.fields@[f].wf(self.schema.fields@[f], reader.max_doc as int));
                    vals.push(offset);
                    let n = if use_bytes {
                        reader.fields[field].bytes[doc as usize].len()
                    } else {
                        reader.fields[field].values[doc as usize].len()
                    };
                    proof {
                        let t = mapping@.take(i + 1);
                        assert(t =~= mapping@.take(i as int).push(mapping@[i as int]));
                        lemma_sum_lens_push(readers, f, use_bytes, mapping@.take(i as int), mapping@[i as int]);
                        assert forall|j: int| 0 <= j < t.len() implies pair_alive(readers, #[trigger] t[j]) by {
                            assert(t[j] == mapping@[j]);
                        }
                        lemma_sum_lens_bound(readers, f, use_bytes, t);
                        lemma_partial_offsets_push(readers, f, use_bytes, mapping@.take(i as int), mapping@[i as int]);
                    }
                    offset = offset + n as u64;
                    i = i + 1;
                }
                assert(mapping@.take(mapping@.len() as int) =~= mapping@);
                vals.push(offset);
                proof {
                    lemma_offsets_close(readers, f, use_bytes, mapping@);
                }
            },
            None => {
                let mut s: usize = 0;
                while s < self.readers.len()
                    invariant
                        self.wf(),
                        readers == self.readers@,
                        f == field,
                        field < self.schema.fields@.len(),
                        lens_bounded(readers, f),
                        s <= readers.len(),
                        offset == sum_lens(readers, f, use_bytes, stacked_order(readers, s as int)),
                        vals@ == partial_offsets(readers, f, use_bytes, stacked_order(readers, s as int)),
                    decreases readers.len() - s,
                {
                    let reader = &self.readers[s];
                    assert(reader.wf(self.schema));
                    assert(reader.fields@[f].wf(self.schema.fields@[f], reader.max_doc as int));
                    let mut d: u32 = 0;
                    proof {
                        lemma_stacked_step(readers, s as int, 0);
                    }
                    while d < reader.max_doc
                        invariant
                            self.wf(),
                            readers == self.readers@,
                            s < readers.len(),
                            *reader == readers[s as int],
                            f == field,
                            field < self.schema.fields@.len(),
                            lens_bounded(readers, f),
                            reader.fields@[f].wf(self.schema.fields@[f], reader.max_doc as int),
                            d <= reader.max_doc,
                            offset == sum_lens(readers, f, use_bytes, stacked_prefix(readers, s as int, d as int)),
                            vals@ == partial_offsets(readers, f, use_bytes, stacked_prefix(readers, s as int, d as int)),
                        decreases reader.max_doc - d,
                    {
                        proof {
                            lemma_stacked_step(readers, s as int, d as int);
                            lemma_stacked_prefix_facts(readers, s as int, d + 1);
                            lemma_sum_lens_bound(readers, f, use_bytes, stacked_prefix(readers, s as int, d + 1));
                        }
                        if reader.is_alive(d) {
                            vals.push(offset);
                            let n = if use_bytes {
                                reader.fields[field].bytes[d as usize].len()
                            } else {
                                reader.fields[field].values[d as usize].len()
                            };
                            proof {
                                let p = stacked_prefix(readers, s as int, d as int);
                                lemma_sum_lens_push(readers, f, use_bytes, p, (d, s as u32));
                                lemma_partial_offsets_push(readers, f, use_bytes, p, (d, s as u32));
                            }
                            offset = offset + n as u64;
                        }
                        d = d + 1;
                    }
                    proof {
                        lemma_stacked_step(readers, s as int, 0);
                    }
                    s = s + 1;
                }
                vals.push(offset);
                proof {
                    lemma_offsets_close(readers, f, use_bytes, stacked_order(readers, readers.len() as int));
                }
            },
        }
        U64Column { min_value: 0, max_value: total_num_vals, vals }
    }
}

/// The offsets of the first documents, without the closing one.
pub open spec fn partial_offsets(readers: Seq<SegmentReader>, field: int, use_bytes: bool, order: Seq<(DocId, SegmentOrdinal)>) -> Seq<u64> {
    Seq::new(order.len(), |i: int| sum_lens(readers, field, use_bytes, order.take(i)) as u64)
}

/// The offsets grow by one entry per document.
proof fn lemma_partial_offsets_push(
    readers: Seq<SegmentReader>,
    field: int,
    ub: bool,
    p: Seq<(DocId, SegmentOrdinal)>,
    x: (DocId, SegmentOrdinal),
)
    ensures
        partial_offsets(readers, field, ub, p.push(x)) == partial_offsets(readers, field, ub, p).push(
            sum_lens(readers, field, ub, p) as u64,
        ),
{
    let q = p.push(x);
    assert forall|j: int| 0 <= j <= p.len() implies q.take(j) == p.take(j) by {
        assert(q.take(j) =~= p.take(j));
    }
    assert(q.take(p.len() as int) =~= p);
    assert(partial_offsets(readers, field, ub, q) =~= partial_offsets(readers, field, ub, p).push(
        sum_lens(readers, field, ub, p) as u64,
    ));
}

/// The offsets column is the partial offsets closed by the total.
proof fn lemma_offsets_close(readers: Seq<SegmentReader>, field: int, ub: bool, p: Seq<(DocId, SegmentOrdinal)>)
    ensures
        offsets_of(readers, field, ub, p) == partial_offsets(readers, field, ub, p).push(sum_lens(readers, field, ub, p) as u64),
{
    assert(p.take(p.len() as int) =~= p);
    assert(offsets_of(readers, field, ub, p) =~= partial_offsets(readers, field, ub, p).push(
        sum_lens(readers, field, ub, p) as u64,
    ));
}

/// The stacking order up to any document holds live documents only, and no more
/// of them than the merged segment.
proof fn lemma_stacked_prefix_facts(readers: Seq<SegmentReader>, s: int, d: int)
    requires
        0 <= s < readers.len() <= u32::MAX,
        0 <= d <= readers[s].max_doc,
    ensures
        forall|i: int| 0 <= i < stacked_prefix(readers, s, d).len() ==> pair_alive(readers, #[trigger] stacked_prefix(readers, s, d)[i]),
        stacked_prefix(readers, s, d).len() <= sum_live(readers, readers.len() as int),
{
    let r = readers[s];
    lemma_stacked_order(readers, s);
    lemma_alive_below(r, d);
    lemma_alive_below_mono(r, d, r.max_doc as int);
    lemma_sum_live_mono(readers, s + 1, readers.len() as int);
    let a = stacked_order(readers, s);
    let b = seg_entries(r, s, d);
    assert forall|i: int| 0 <= i < (a + b).len() implies pair_alive(readers, #[trigger] (a + b)[i]) by {
        if i < a.len() {
            assert((a + b)[i] == a[i]);
        } else {
            assert((a + b)[i] == b[i - a.len()]);
            assert(b[i - a.len()] == (r.alive_below(d)[i - a.len()], s as u32));
        }
    }
}

/// Fewer documents below a smaller bound.
proof fn lemma_alive_below_mono(r: SegmentReader, d: int, n: int)
    requires
        0 <= d <= n,
    ensures
        r.alive_below(d).len() <= r.alive_below(n).len(),
    decreases n,
{
    if d < n {
        lemma_alive_below_mono(r, d, n - 1);
    }
}

/// `sum_live` grows with the number of segments.
pub proof fn lemma_sum_live_mono(readers: Seq<SegmentReader>, a: int, b: int)
    requires
        0 <= a <= b,
    ensures
        sum_live(readers, a) <= sum_live(readers, b),
    decreases b,
{
    if a < b {
        lemma_sum_live_mono(readers, a, b - 1);
    }
}

/// The u64 values of a document in a multi-valued field, translated through the
/// term-ordinal mapping of its segment when there is one.
pub open spec fn doc_values(
    readers: Seq<SegmentReader>,
    field: int,
    tom: Option<Seq<Seq<u64>>>,
    e: (DocId, SegmentOrdinal),
) -> Seq<u64> {
    let vals = readers[e.1 as int].fields@[field].values@[e.0 as int]@;
    match tom {
        None => vals,
        Some(t) => vals.map_values(|v: u64| t[e.1 as int][v as int]),
    }
}

/// The values of the documents of `order`, one document after the other.
pub open spec fn multi_vals_of(
    readers: Seq<SegmentReader>,
    field: int,
    tom: Option<Seq<Seq<u64>>>,
    order: Seq<(DocId, SegmentOrdinal)>,
) -> Seq<u64> {
    flat_map(order, |e: (DocId, SegmentOrdinal)| doc_values(readers, field, tom, e))
}

/// The bytes of the documents of `order`, one document after the other.
pub open spec fn bytes_of(readers: Seq<SegmentReader>, field: int, order: Seq<(DocId, SegmentOrdinal)>) -> Seq<u8> {
    flat_map(order, |e: (DocId, SegmentOrdinal)| readers[e.1 as int].fields@[field].bytes@[e.0 as int]@)
}

pub open spec fn tom_view(tom: Option<&TermOrdinalMapping>) -> Option<Seq<Seq<u64>>> {
    match tom {
        None => None,
        Some(t) => Some(t@),
    }
}

/// The mapping has one row per segment, and one entry per term of the segment's field.
pub open spec fn tom_fits(readers: Seq<SegmentReader>, field: int, t: Seq<Seq<u64>>) -> bool {
    &&& t.len() == readers.len()
    &&& forall|s: int| 0 <= s < readers.len() ==> (#[trigger] t[s]).len() == readers[s].fields@[field].terms@.len()
}

/// Appends `vals`, each translated through `tr` when it is given.
fn append_values(out: &mut Vec<u64>, vals: &Vec<u64>, tr: Option<&Vec<u64>>)
    requires
        tr matches Some(t) ==> forall|i: int| 0 <= i < vals@.len() ==> #[trigger] vals@[i] < t@.len(),
    ensures
        final(out)@ == old(out)@ + match tr {
            None => vals@,
            Some(t) => vals@.map_values(|v: u64| t@[v as int]),
        },
{
    let ghost added = match tr {
        None => vals@,
        Some(t) => vals@.map_values(|v: u64| t@[v as int]),
    };
    let ghost start = out@;
    let mut i: usize = 0;
    while i < vals.len()
        invariant
            i <= vals@.len(),
            added.len() == vals@.len(),
            added == match tr {
                None => vals@,
                Some(t) => vals@.map_values(|v: u64| t@[v as int]),
            },
            tr matches Some(t) ==> forall|i: int| 0 <= i < vals@.len() ==> #[trigger] vals@[i] < t@.len(),
            out@ =~= start + added.take(i as int),
        decreases vals@.len() - i,
    {
        let v = match tr {
            None => vals[i],
            Some(t) => {
                let n = t.len();
                assert(vals@[i as int] < n);
                t[vals[i] as usize]
            },
        };
        out.push(v);
        assert(added.take(i + 1) =~= added.take(i as int).push(added[i as int]));
        i = i + 1;
    }
    assert(added.take(vals@.len() as int) =~= added);
}

/// Appends the bytes of `src`.
pub(crate) fn append_bytes(out: &mut Vec<u8>, src: &Vec<u8>)
    ensures
        final(out)@ == old(out)@ + src@,
{
    let ghost start = out@;
    let mut i: usize = 0;
    while i < src.len()
        invariant
            i <= src@.len(),
            out@ =~= start + src@.take(i as int),
        decreases src@.len() - i,
    {
        out.push(src[i]);
        assert(src@.take(i + 1) =~= src@.take(i as int).push(src@[i as int]));
        i = i + 1;
    }
    assert(src@.take(src@.len() as int) =~= src@);
}

impl IndexMerger {
    /// The values of a multi-valued field in the order of the new doc ids, translated
    /// through the term-ordinal mapping of a facet field when it is given.
    fn write_multi_values(
        &self,
        field: usize,
        tom: Option<&TermOrdinalMapping>,
        doc_id_mapping: &Option<Vec<(DocId, SegmentOrdinal)>>,
    ) -> (r: Vec<u64>)
        requires
            self.wf(),
            field < self.schema.fields@.len(),
            valid_mapping_opt(self.readers@, *doc_id_mapping),
            tom matches Some(t) ==> self.schema.fields@[field as int].kind == FieldKind::HierarchicalFacet
                && tom_fits(self.readers@, field as int, t@),
        ensures
            r@ == multi_vals_of(self.readers@, field as int, tom_view(tom), merge_order(self.readers@, *doc_id_mapping)),
    {
        let ghost readers = self.readers@;
        let ghost f = field as int;
        let ghost tv = tom_view(tom);
        let ghost df = |e: (DocId, SegmentOrdinal)| doc_values(readers, f, tv, e);
        let mut vals: Vec<u64> = Vec::new();
        proof {
            lemma_merge_order_alive(readers, *doc_id_mapping);
        }
        match doc_id_mapping {
            Some(mapping) => {
                let mut i: usize = 0;
                while i < mapping.len()
                    invariant
                        self.wf(),
                        readers == self.readers@,
                        f == field,
                        tv == tom_view(tom),
                        df == (|e: (DocId, SegmentOrdinal)| doc_values(readers, f, tv, e)),
                        field < self.schema.fields@.len(),
                        tom matches Some(t) ==> self.schema.fields@[f].kind == FieldKind::HierarchicalFacet
                            && tom_fits(readers, f, t@),
                        merge_order(readers, *doc_id_mapping) == mapping@,
                        forall|j: int| 0 <= j < mapping@.len() ==> pair_alive(readers, #[trigger] mapping@[j]),
                        i <= mapping@.len(),
                        vals@ == flat_map(mapping@.take(i as int), df),
                    decreases mapping@.len() - i,
                {
                    let (doc, seg) = mapping[i];
                    assert(pair_alive(readers, mapping@[i as int]));
                    self.append_doc(&mut vals, field, tom, seg as usize, doc);
                    proof {
                        assert(mapping@.take(i + 1) =~= mapping@.take(i as int).push(mapping@[i as int]));
                        lemma_flat_map_push(mapping@.take(i as int), mapping@[i as int], df);
                    }
                    i = i + 1;
                }
                assert(mapping@.take(mapping@.len() as int) =~= mapping@);
            },
            None => {
                let mut s: usize = 0;
                while s < self.readers.len()
                    invariant
                        self.wf(),
                        readers == self.readers@,
                        f == field,
                        tv == tom_view(tom),
                        df == (|e: (DocId, SegmentOrdinal)| doc_values(readers, f, tv, e)),
                        field < self.schema.fields@.len(),
                        tom matches Some(t) ==> self.schema.fields@[f].kind == FieldKind::HierarchicalFacet
                            && tom_fits(readers, f, t@),
                        s <= readers.len(),
                        vals@ == flat_map(stacked_order(readers, s as int), df),
                    decreases readers.len() - s,
                {
                    let reader = &self.readers[s];
                    let mut d: u32 = 0;
                    proof {
                        lemma_stacked_step(readers, s as int, 0);
                    }
                    while d < reader.max_doc
                        invariant
                            self.wf(),
                            readers == self.readers@,
                            s < readers.len(),
                            *reader == readers[s as int],
                            f == field,
                            tv == tom_view(tom),
                            df == (|e: (DocId, SegmentOrdinal)| doc_values(readers, f, tv, e)),
                            field < self.schema.fields@.len(),
                            tom matches Some(t) ==> self.schema.fields@[f].kind == FieldKind::HierarchicalFacet
                                && tom_fits(readers, f, t@),
                            d <= reader.max_doc,
                            vals@ == flat_map(stacked_prefix(readers, s as int, d as int), df),
                        decreases reader.max_doc - d,
                    {
                        proof {
                            lemma_stacked_step(readers, s as int, d as int);
                        }
                        assert(reader.wf(self.schema));
                        if reader.is_alive(d) {
                            self.append_doc(&mut vals, field, tom, s, d);
                            proof {
                                lemma_flat_map_push(stacked_prefix(readers, s as int, d as int), (d, s as u32), df);
                            }
                        }
                        d = d + 1;
                    }
                    proof {
                        lemma_stacked_step(readers, s as int, 0);
                    }
                    s = s + 1;
                }
            },
        }
        vals
    }

    /// Appends the values of document `doc` of segment `seg`.
    fn append_doc(&self, out: &mut Vec<u64>, field: usize, tom: Option<&TermOrdinalMapping>, seg: usize, doc: DocId)
        requires
            self.wf(),
            field < self.schema.fields@.len(),
            seg < self.readers@.len(),
            doc < self.readers@[seg as int].max_doc,
            tom matches Some(t) ==> self.schema.fields@[field as int].kind == FieldKind::HierarchicalFacet
                && tom_fits(self.readers@, field as int, t@),
        ensures
            final(out)@ == old(out)@ + doc_values(self.readers@, field as int, tom_view(tom), (doc, seg as SegmentOrdinal)),
    {
        let reader = &self.readers[seg];
        assert(reader.wf(self.schema));
        assert(reader.fields@[field as int].wf(self.schema.fields@[field as int], reader.max_doc as int));
        assert((seg as SegmentOrdinal) as int == seg) by {
            assert(self.readers@.len() <= self.max_doc);
        }
        let vals = &reader.fields[field].values[doc as usize];
        match tom {
            None => append_values(out, vals, None),
            Some(t) => {
                let row = t.get_segment(seg);
                append_values(out, vals, Some(row));
            },
        }
    }
}

/// A multi-valued column: offsets into the values, and the values.
#[derive(Clone, Debug)]
pub struct MultiValuedColumn {
    pub idx: U64Column,
    pub vals: U64Column,
}

/// A bytes column: offsets into the data, and the data.
#[derive(Clone, Debug)]
pub struct BytesColumn {
    pub idx: U64Column,
    pub data: Vec<u8>,
}

#[derive(Clone, Debug)]
pub enum FastFieldColumn {
    Single(U64Column),
    Multi(MultiValuedColumn),
    Bytes(BytesColumn),
}

/// The merged fast-field column of one field of the schema.
#[derive(Clone, Debug)]
pub struct MergedFastField {
    pub field: usize,
    pub column: FastFieldColumn,
}

/// `(lo, hi)` are the least and the greatest of `s`, or the neutral pair when `s` is empty.
pub open spec fn acc_ok(lo: u64, hi: u64, s: Seq<u64>) -> bool {
    if s.len() == 0 {
        lo == u64::MAX && hi == 0
    } else {
        is_min(lo, s) && is_max(hi, s)
    }
}

/// Folding one more value into the running bounds.
proof fn lemma_acc_push(lo: u64, hi: u64, s: Seq<u64>, v: u64)
    requires
        acc_ok(lo, hi, s),
    ensures
        acc_ok(if v < lo { v } else { lo }, if v > hi { v } else { hi }, s.push(v)),
{
    let t = s.push(v);
    assert(t[s.len() as int] == v);
    if s.len() > 0 {
        let i = choose|i: int| 0 <= i < s.len() && s[i] == lo;
        let j = choose|j: int| 0 <= j < s.len() && s[j] == hi;
        assert(t[i] == lo && t[j] == hi);
    }
    assert forall|k: int| 0 <= k < t.len() implies (if v < lo { v } else { lo }) <= t[k] && t[k] <= (if v > hi { v } else { hi }) by {
        if k < s.len() {
            assert(t[k] == s[k]);
        }
    }
}

impl IndexMerger {
    /// The offsets column of a multi-valued u64 field.
    fn write_multi_value_fast_field_idx(
        &self,
        field: usize,
        doc_id_mapping: &Option<Vec<(DocId, SegmentOrdinal)>>,
    ) -> (r: U64Column)
        requires
            self.wf(),
            field < self.schema.fields@.len(),
            valid_mapping_opt(self.readers@, *doc_id_mapping),
        ensures
            r.min_value == 0,
            r.max_value == sum_lens(self.readers@, field as int, false, stacked_order(self.readers@, self.readers@.len() as int)),
            r.vals@ == offsets_of(self.readers@, field as int, false, merge_order(self.readers@, *doc_id_mapping)),
    {
        self.write_1_n_fast_field_idx_generic(field, false, doc_id_mapping)
    }

    /// The least and the greatest value of the live documents of a multi-valued field.
    fn multi_min_max(&self, field: usize) -> (r: (u64, u64))
        requires
            self.wf(),
            field < self.schema.fields@.len(),
        ensures
            acc_ok(r.0, r.1, multi_vals_of(self.readers@, field as int, None, stacked_order(self.readers@, self.readers@.len() as int))),
    {
        let ghost readers = self.readers@;
        let ghost f = field as int;
        let ghost df = |e: (DocId, SegmentOrdinal)| doc_values(readers, f, None, e);
        let mut lo: u64 = u64::MAX;
        let mut hi: u64 = 0;
        let mut s: usize = 0;
        while s < self.readers.len()
            invariant
                self.wf(),
                readers == self.readers@,
                f == field,
                df == (|e: (DocId, SegmentOrdinal)| doc_values(readers, f, None, e)),
                field < self.schema.fields@.len(),
                s <= readers.len(),
                acc_ok(lo, hi, flat_map(stacked_order(readers, s as int), df)),
            decreases readers.len() - s,
        {
            let reader = &self.readers[s];
            assert(reader.wf(self.schema));
            assert(reader.fields@[f].wf(self.schema.fields@[f], reader.max_doc as int));
            let mut d: u32 = 0;
            proof {
                lemma_stacked_step(readers, s as int, 0);
            }
            while d < reader.max_doc
                invariant
                    self.wf(),
                    readers == self.readers@,
                    s < readers.len(),
                    *reader == readers[s as int],
                    f == field,
                    df == (|e: (DocId, SegmentOrdinal)| doc_values(readers, f, None, e)),
                    field < self.schema.fields@.len(),
                    reader.fields@[f].wf(self.schema.fields@[f], reader.max_doc as int),
                    d <= reader.max_doc,
                    acc_ok(lo, hi, flat_map(stacked_prefix(readers, s as int, d as int), df)),
                decreases reader.max_doc - d,
            {
                proof {
                    lemma_stacked_step(readers, s as int, d as int);
                }
                if reader.is_alive(d) {
                    let vals = &reader.fields[field].values[d as usize];
                    let ghost base = flat_map(stacked_prefix(readers, s as int, d as int), df);
                    let mut j: usize = 0;
                    while j < vals.len()
                        invariant
                            j <= vals@.len(),
                            acc_ok(lo, hi, base + vals@.take(j as int)),
                        decreases vals@.len() - j,
                    {
                        proof {
                            lemma_acc_push(lo, hi, base + vals@.take(j as int), vals@[j as int]);
                            assert(base + vals@.take(j + 1) =~= (base + vals@.take(j as int)).push(vals@[j as int]));
                        }
                        let v = vals[j];
                        if v < lo {
                            lo = v;
                        }
                        if v > hi {
                            hi = v;
                        }
                        j = j + 1;
                    }
                    proof {
                        assert(vals@.take(vals@.len() as int) =~= vals@);
                        lemma_flat_map_push(stacked_prefix(readers, s as int, d as int), (d, s as u32), df);
                        assert(df((d, s as u32)) == vals@);
                    }
                }
                d = d + 1;
            }
            proof {
                lemma_stacked_step(readers, s as int, 0);
            }
            s = s + 1;
        }
        (lo, hi)
    }

    /// Rewrites a multi-valued u64 fast field: the offsets, then the values of the
    /// documents in the order of the new doc ids.
    pub fn write_multi_fast_field(
        &self,
        field: usize,
        doc_id_mapping: &Option<Vec<(DocId, SegmentOrdinal)>>,
    ) -> (r: MultiValuedColumn)
        requires
            self.wf(),
            field < self.schema.fields@.len(),
            valid_mapping_opt(self.readers@, *doc_id_mapping),
        ensures
            r.idx.min_value == 0,
            r.idx.max_value == sum_lens(self.readers@, field as int, false, stacked_order(self.readers@, self.readers@.len() as int)),
            r.idx.vals@ == offsets_of(self.readers@, field as int, false, merge_order(self.readers@, *doc_id_mapping)),
            r.vals.vals@ == multi_vals_of(self.readers@, field as int, None, merge_order(self.readers@, *doc_id_mapping)),
            min_max_spec(
                r.vals,
                multi_vals_of(self.readers@, field as int, None, stacked_order(self.readers@, self.readers@.len() as int)),
            ),
    {
        let idx = self.write_multi_value_fast_field_idx(field, doc_id_mapping);
        let (mut min_value, mut max_value) = self.multi_min_max(field);
        if min_value > max_value {
            min_value = 0;
            max_value = 0;
        }
        let vals = self.write_multi_values(field, None, doc_id_mapping);
        MultiValuedColumn { idx, vals: U64Column { min_value, max_value, vals } }
    }
}

impl IndexMerger {
    /// Rewrites a hierarchical facet field: its values are term ordinals, which are
    /// translated into the ordinals of the merged term dictionary.
    pub fn write_hierarchical_facet_field(
        &self,
        field: usize,
        term_ordinal_mappings: &TermOrdinalMapping,
        doc_id_mapping: &Option<Vec<(DocId, SegmentOrdinal)>>,
    ) -> (r: MultiValuedColumn)
        requires
            self.wf(),
            field < self.schema.fields@.len(),
            self.schema.fields@[field as int].kind == FieldKind::HierarchicalFacet,
            tom_fits(self.readers@, field as int, term_ordinal_mappings@),
            valid_mapping_opt(self.readers@, *doc_id_mapping),
        ensures
            r.idx.min_value == 0,
            r.idx.max_value == sum_lens(self.readers@, field as int, false, stacked_order(self.readers@, self.readers@.len() as int)),
            r.idx.vals@ == offsets_of(self.readers@, field as int, false, merge_order(self.readers@, *doc_id_mapping)),
            r.vals.vals@ == multi_vals_of(
                self.readers@,
                field as int,
                Some(term_ordinal_mappings@),
                merge_order(self.readers@, *doc_id_mapping),
            ),
            r.vals.min_value == 0,
            r.vals.max_value == max_of_all(term_ordinal_mappings@),
    {
        let idx = self.write_multi_value_fast_field_idx(field, doc_id_mapping);
        let max_term_ord = term_ordinal_mappings.max_term_ord();
        let vals = self.write_multi_values(field, Some(term_ordinal_mappings), doc_id_mapping);
        MultiValuedColumn { idx, vals: U64Column { min_value: 0, max_value: max_term_ord, vals } }
    }

    /// Rewrites a bytes fast field: the offsets, then the bytes of the documents in
    /// the order of the new doc ids.
    pub fn write_bytes_fast_field(
        &self,
        field: usize,
        doc_id_mapping: &Option<Vec<(DocId, SegmentOrdinal)>>,
    ) -> (r: BytesColumn)
        requires
            self.wf(),
            field < self.schema.fields@.len(),
            valid_mapping_opt(self.readers@, *doc_id_mapping),
        ensures
            r.idx.min_value == 0,
            r.idx.max_value == sum_lens(self.readers@, field as int, true, stacked_order(self.readers@, self.readers@.len() as int)),
            r.idx.vals@ == offsets_of(self.readers@, field as int, true, merge_order(self.readers@, *doc_id_mapping)),
            r.data@ == bytes_of(self.readers@, field as int, merge_order(self.readers@, *doc_id_mapping)),
    {
        let idx = self.write_1_n_fast_field_idx_generic(field, true, doc_id_mapping);
        let ghost readers = self.readers@;
        let ghost f = field as int;
        let ghost bf = |e: (DocId, SegmentOrdinal)| readers[e.1 as int].fields@[f].bytes@[e.0 as int]@;
        let mut data: Vec<u8> = Vec::new();
        proof {
            lemma_merge_order_alive(readers, *doc_id_mapping);
        }
        match doc_id_mapping {
            Some(mapping) => {
                let mut i: usize = 0;
                while i < mapping.len()
                    invariant
                        self.wf(),
                        readers == self.readers@,
                        f == field,
                        bf == (|e: (DocId, SegmentOrdinal)| readers[e.1 as int].fields@[f].bytes@[e.0 as int]@),
                        field < self.schema.fields@.len(),
                        merge_order(readers, *doc_id_mapping) == mapping@,
                        forall|j: int| 0 <= j < mapping@.len() ==> pair_alive(readers, #[trigger] mapping@[j]),
                        i <= mapping@.len(),
                        data@ == flat_map(mapping@.take(i as int), bf),
                    decreases mapping@.len() - i,
                {
                    let (doc, seg) = mapping[i];
                    assert(pair_alive(readers, mapping@[i as int]));
                    let reader = &self.readers[seg as usize];
                    assert(reader.wf(self.schema));
                    assert(reader.fields@[f].wf(self.schema.fields@[f], reader.max_doc as int));
                    append_bytes(&mut data, &reader.fields[field].bytes[doc as usize]);
                    proof {
                        assert(mapping@.take(i + 1) =~= mapping@.take(i as int).push(mapping@[i as int]));
                        lemma_flat_map_push(mapping@.take(i as int), mapping@[i as int], bf);
                    }
                    i = i + 1;
                }
                assert(mapping@.take(mapping@.len() as int) =~= mapping@);
            },
            None => {
                let mut s: usize = 0;
                while s < self.readers.len()
                    invariant
                        self.wf(),
                        readers == self.readers@,
                        f == field,
                        bf == (|e: (DocId, SegmentOrdinal)| readers[e.1 as int].fields@[f].bytes@[e.0 as int]@),
                        field < self.schema.fields@.len(),
                        s <= readers.len(),
                        data@ == flat_map(stacked_order(readers, s as int), bf),
                    decreases readers.len() - s,
                {
                    let reader = &self.readers[s];
                    assert(reader.wf(self.schema));
                    assert(reader.fields@[f].wf(self.schema.fields@[f], reader.max_doc as int));
                    let mut d: u32 = 0;
                    proof {
                        lemma_stacked_step(readers, s as int, 0);
                    }
                    while d < reader.max_doc
                        invariant
                            self.wf(),
                            readers == self.readers@,
                            s < readers.len(),
                            *reader == readers[s as int],
                            f == field,
                            bf == (|e: (DocId, SegmentOrdinal)| readers[e.1 as int].fields@[f].bytes@[e.0 as int]@),
                            field < self.schema.fields@.len(),
                            reader.fields@[f].wf(self.schema.fields@[f], reader.max_doc as int),
                            d <= reader.max_doc,
                            data@ == flat_map(stacked_prefix(readers, s as int, d as int), bf),
                        decreases reader.max_doc - d,
                    {
                        proof {
                            lemma_stacked_step(readers, s as int, d as int);
                        }
                        if reader.is_alive(d) {
                            append_bytes(&mut data, &reader.fields[field].bytes[d as usize]);
                            proof {
                                lemma_flat_map_push(stacked_prefix(readers, s as int, d as int), (d, s as u32), bf);
                            }
                        }
                        d = d + 1;
                    }
                    proof {
                        lemma_stacked_step(readers, s as int, 0);
                    }
                    s = s + 1;
                }
            },
        }
        assert(data@ == bytes_of(readers, f, merge_order(readers, *doc_id_mapping)));
        BytesColumn { idx, data }
    }
}

pub open spec fn is_fast(kind: FieldKind) -> bool {
    match kind {
        FieldKind::Numeric(c) => c.is_some(),
        FieldKind::HierarchicalFacet => true,
        FieldKind::Bytes { fast } => fast,
        FieldKind::Text => false,
    }
}

/// The fields among the first `k` of the schema that have a fast-field column, in order.
pub open spec fn fast_field_ids(fields: Seq<FieldEntry>, k: int) -> Seq<usize>
    decreases k,
{
    if k <= 0 {
        seq![]
    } else if is_fast(fields[k - 1].kind) {
        fast_field_ids(fields, k - 1).push((k - 1) as usize)
    } else {
        fast_field_ids(fields, k - 1)
    }
}

/// The term-ordinal mapping that the postings pass produced for a field, if any.
pub open spec fn mapping_of(toms: Seq<Option<TermOrdinalMapping>>, field: int) -> Option<TermOrdinalMapping> {
    if 0 <= field < toms.len() {
        toms[field]
    } else {
        None
    }
}

/// Some facet field lacks its term-ordinal mapping.
pub open spec fn facet_mapping_missing(schema: Schema, toms: Seq<Option<TermOrdinalMapping>>) -> bool {
    exists|f: int|
        0 <= f < schema.fields@.len() && schema.fields@[f].kind == FieldKind::HierarchicalFacet && #[trigger] mapping_of(
            toms,
            f,
        ).is_none()
}

impl IndexMerger {
    /// What the merged column of a fast field holds.
    pub open spec fn column_ok(
        &self,
        field: int,
        toms: Seq<Option<TermOrdinalMapping>>,
        m: Option<Vec<(DocId, SegmentOrdinal)>>,
        c: FastFieldColumn,
    ) -> bool {
        let readers = self.readers@;
        let order = merge_order(readers, m);
        let all = stacked_order(readers, readers.len() as int);
        match self.schema.fields@[field].kind {
            FieldKind::Numeric(Some(Cardinality::SingleValue)) => c matches FastFieldColumn::Single(col) && {
                &&& col.vals@ == single_values_of(readers, field, order)
                &&& min_max_spec(col, single_values_of(readers, field, all))
            },
            FieldKind::HierarchicalFacet => c matches FastFieldColumn::Multi(col) && {
                &&& col.idx.vals@ == offsets_of(readers, field, false, order)
                &&& col.idx.max_value == sum_lens(readers, field, false, all)
                &&& col.vals.vals@ == multi_vals_of(readers, field, Some(mapping_of(toms, field).unwrap()@), order)
                &&& col.vals.min_value == 0
                &&& col.vals.max_value == max_of_all(mapping_of(toms, field).unwrap()@)
            },
            FieldKind::Numeric(_) => c matches FastFieldColumn::Multi(col) && {
                &&& col.idx.vals@ == offsets_of(readers, field, false, order)
                &&& col.idx.max_value == sum_lens(readers, field, false, all)
                &&& col.vals.vals@ == multi_vals_of(readers, field, None, order)
                &&& min_max_spec(col.vals, multi_vals_of(readers, field, None, all))
            },
            _ => c matches FastFieldColumn::Bytes(col) && {
                &&& col.idx.vals@ == offsets_of(readers, field, true, order)
                &&& col.idx.max_value == sum_lens(readers, field, true, all)
                &&& col.data@ == bytes_of(readers, field, order)
            },
        }
    }

    /// Rewrites every fast field of the schema, in schema order. Text fields have no
    /// fast column in the merged segment.
    pub fn write_fast_fields(
        &self,
        term_ord_mappings: &Vec<Option<TermOrdinalMapping>>,
        doc_id_mapping: &Option<Vec<(DocId, SegmentOrdinal)>>,
    ) -> (r: Result<Vec<MergedFastField>, MergeError>)
        requires
            self.wf(),
            valid_mapping_opt(self.readers@, *doc_id_mapping),
            forall|f: int| 0 <= f < term_ord_mappings@.len() ==> (#[trigger] term_ord_mappings@[f] matches Some(t)
                ==> tom_fits(self.readers@, f, t@)),
        ensures
            match r {
                Err(e) => e == MergeError::Internal && facet_mapping_missing(self.schema, term_ord_mappings@),
                Ok(v) => {
                    &&& !facet_mapping_missing(self.schema, term_ord_mappings@)
                    &&& v@.map_values(|c: MergedFastField| c.field) == fast_field_ids(
                        self.schema.fields@,
                        self.schema.fields@.len() as int,
                    )
                    &&& forall|i: int| 0 <= i < v@.len() ==> self.column_ok(
                        (#[trigger] v@[i]).field as int,
                        term_ord_mappings@,
                        *doc_id_mapping,
                        v@[i].column,
                    )
                },
            },
    {
        let mut out: Vec<MergedFastField> = Vec::new();
        let mut field: usize = 0;
        while field < self.schema.fields.len()
            invariant
                self.wf(),
                valid_mapping_opt(self.readers@, *doc_id_mapping),
                forall|f: int| 0 <= f < term_ord_mappings@.len() ==> (#[trigger] term_ord_mappings@[f] matches Some(t)
                    ==> tom_fits(self.readers@, f, t@)),
                field <= self.schema.fields@.len(),
                forall|f: int| 0 <= f < field ==> !(self.schema.fields@[f].kind == FieldKind::HierarchicalFacet
                    && #[trigger] mapping_of(term_ord_mappings@, f).is_none()),
                out@.map_values(|c: MergedFastField| c.field) == fast_field_ids(self.schema.fields@, field as int),
                forall|i: int| 0 <= i < out@.len() ==> self.column_ok(
                    (#[trigger] out@[i]).field as int,
                    term_ord_mappings@,
                    *doc_id_mapping,
                    out@[i].column,
                ),
            decreases self.schema.fields@.len() - field,
        {
            let ghost old_out = out@;
            let column = match self.schema.fields[field].kind {
                FieldKind::HierarchicalFacet => {
                    if field >= term_ord_mappings.len() {
                        assert(mapping_of(term_ord_mappings@, field as int).is_none());
                        return Err(MergeError::Internal);
                    }
                    match &term_ord_mappings[field] {
                        Some(t) => Some(FastFieldColumn::Multi(
                            self.write_hierarchical_facet_field(field, t, doc_id_mapping),
                        )),
                        None => {
                            assert(mapping_of(term_ord_mappings@, field as int).is_none());
                            return Err(MergeError::Internal);
                        },
                    }
                },
                FieldKind::Numeric(Some(Cardinality::SingleValue)) => Some(
                    FastFieldColumn::Single(self.write_single_fast_field(field, doc_id_mapping)),
                ),
                FieldKind::Numeric(Some(Cardinality::MultiValues)) => Some(
                    FastFieldColumn::Multi(self.write_multi_fast_field(field, doc_id_mapping)),
                ),
                FieldKind::Numeric(None) => None,
                // Text fast fields are not carried over.
                FieldKind::Text => None,
                FieldKind::Bytes { fast } => {
                    if fast {
                        Some(FastFieldColumn::Bytes(self.write_bytes_fast_field(field, doc_id_mapping)))
                    } else {
                        None
                    }
                },
            };
            if let Some(column) = column {
                out.push(MergedFastField { field, column });
                proof {
                    assert(out@.map_values(|c: MergedFastField| c.field) =~= old_out.map_values(
                        |c: MergedFastField| c.field,
                    ).push(field));
                }
            }
            field = field + 1;
        }
        Ok(out)
    }
}

} // verus!
