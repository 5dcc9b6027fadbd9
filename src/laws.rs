use vstd::prelude::*;
use crate::doc_order::{
    lemma_alive_below, lemma_merge_order_alive, lemma_stacked_order, merge_order, pair_alive, seg_entries, stacked_order,
    sum_live, valid_mapping, valid_mapping_opt,
};
use crate::fastfield::{doc_values, flat_map, multi_vals_of, single_values_of};
use crate::store::{iter_doc, iter_payloads, lemma_seg_count_step, payloads_of, seg_count, store_exhausted};
use crate::fieldnorm::total_tokens;
use crate::merger::IndexMerger;
use crate::postings::{
    ascending, deltas_of, field_terms_ok, has_source, has_term, live_posting, term_at, terms_len,
    tom_ok, MergedTerm,
};
use crate::schema::DocId;
use crate::segment::{SegmentOrdinal, SegmentReader};
use crate::sort_order::{is_sorted_mapping, keyed, sort_value};
use crate::term_ordinals::{lemma_max_of_all, max_of_all};

verus! {

/// The merged segment has one document per live document of the merged segments:
/// every merge order, stacked or sorted, has `max_doc` entries, and `max_doc` is
/// the sum of the live documents of the segments.
pub proof fn law_merged_doc_count(m: IndexMerger, mo: Option<Vec<(DocId, SegmentOrdinal)>>)
    requires
        m.wf(),
        valid_mapping_opt(m.readers@, mo),
    ensures
        merge_order(m.readers@, mo).len() == m.max_doc,
        m.max_doc == sum_live(m.readers@, m.readers@.len() as int),
{
    lemma_merge_order_alive(m.readers@, mo);
}

/// A doc-id mapping, as `generate_doc_id_mapping` returns it whether or not the
/// segments are sorted on the sort field, is a bijection from the live documents of
/// the segments onto the new doc ids `[0, len)`.
pub proof fn law_mapping_bijection(readers: Seq<SegmentReader>, m: Seq<(DocId, SegmentOrdinal)>)
    requires
        readers.len() <= u32::MAX,
        valid_mapping(readers, m),
    ensures
        m.len() == sum_live(readers, readers.len() as int),
        m.no_duplicates(),
        forall|i: int| 0 <= i < m.len() ==> pair_alive(readers, #[trigger] m[i]),
        forall|e: (DocId, SegmentOrdinal)| pair_alive(readers, e) ==> #[trigger] m.contains(e),
{
    let order = stacked_order(readers, readers.len() as int);
    lemma_stacked_order(readers, readers.len() as int);
    assert forall|i: int| 0 <= i < m.len() implies pair_alive(readers, #[trigger] m[i]) by {
        assert(order.contains(m[i]));
        let j = choose|j: int| 0 <= j < order.len() && order[j] == m[i];
    }
    assert forall|e: (DocId, SegmentOrdinal)| pair_alive(readers, e) implies #[trigger] m.contains(e) by {
        assert(order.contains(e));
    }
}

/// In a sorted doc-id mapping, the sort values of consecutive new doc ids are in
/// the configured order.
pub proof fn law_mapping_sort_order(
    readers: Seq<SegmentReader>,
    field: int,
    asc: bool,
    m: Seq<(DocId, SegmentOrdinal)>,
    i: int,
)
    requires
        is_sorted_mapping(readers, field, asc, m),
        0 <= i < m.len() - 1,
    ensures
        asc ==> sort_value(readers[m[i].1 as int], field, m[i].0 as int) <= sort_value(
            readers[m[i + 1].1 as int],
            field,
            m[i + 1].0 as int,
        ),
        !asc ==> sort_value(readers[m[i].1 as int], field, m[i].0 as int) >= sort_value(
            readers[m[i + 1].1 as int],
            field,
            m[i + 1].0 as int,
        ),
{
    assert(crate::sort_order::entry_before(asc, keyed(readers, field, m[i]), keyed(readers, field, m[i + 1])));
}

/// Every merged posting list is strictly ascending in new doc id.
pub proof fn law_postings_ascending(
    readers: Seq<SegmentReader>,
    field: int,
    order: Seq<(DocId, SegmentOrdinal)>,
    out: Seq<MergedTerm>,
    k: int,
    a: int,
    b: int,
)
    requires
        field_terms_ok(readers, field, order, out),
        0 <= k < out.len(),
        0 <= a < b < out[k].postings@.len(),
    ensures
        out[k].postings@[a].doc < out[k].postings@[b].doc,
{
    assert(crate::postings::postings_ok(readers, field, order, out[k].term@, out[k].postings@));
}

/// The sum of the first `n` elements.
pub open spec fn prefix_sum(s: Seq<u32>, n: int) -> int
    decreases n,
{
    if n <= 0 {
        0
    } else {
        prefix_sum(s, n - 1) + s[n - 1]
    }
}

/// Position deltas add back up to the absolute positions they were computed from.
pub proof fn law_position_deltas_sum(p: Seq<u32>, i: int)
    requires
        ascending(p),
        0 <= i < p.len(),
    ensures
        prefix_sum(deltas_of(p), i + 1) == p[i],
    decreases i,
{
    let d = deltas_of(p);
    assert(prefix_sum(d, i + 1) == prefix_sum(d, i) + d[i]);
    if i > 0 {
        law_position_deltas_sum(p, i - 1);
        assert(p[i - 1] <= p[i]);
        assert(d[i] == p[i] - p[i - 1]);
    } else {
        assert(prefix_sum(d, 0) == 0);
    }
}

/// A term is in the merged dictionary if and only if some live document of some
/// segment holds it.
pub proof fn law_term_survival(
    readers: Seq<SegmentReader>,
    field: int,
    order: Seq<(DocId, SegmentOrdinal)>,
    out: Seq<MergedTerm>,
    t: Seq<u8>,
)
    requires
        field_terms_ok(readers, field, order, out),
    ensures
        has_term(out, t) <==> exists|s: int, i: int, j: int|
            #[trigger] live_posting(readers, field, s, i, j) && term_at(readers, field, s, i).term@ == t,
{
    if has_term(out, t) {
        let k = choose|k: int| 0 <= k < out.len() && (#[trigger] out[k]).term@ == t;
        assert(crate::postings::postings_ok(readers, field, order, out[k].term@, out[k].postings@));
        assert(has_source(readers, field, order, t, out[k].postings@[0]));
    }
    if exists|s: int, i: int, j: int| #[trigger] live_posting(readers, field, s, i, j) && term_at(readers, field, s, i).term@ == t {
        let (s, i, j) = choose|s: int, i: int, j: int|
            #[trigger] live_posting(readers, field, s, i, j) && term_at(readers, field, s, i).term@ == t;
        crate::postings::lemma_alive_count_pos(readers[s], term_at(readers, field, s, i).postings@, j);
        assert(0 <= i < terms_len(readers, field, s));
    }
}

/// A facet term that a live document holds is mapped to a valid ordinal of the
/// merged dictionary, that ordinal stands for the same term, and it lies within the
/// bound that the facet column is packed with.
pub proof fn law_facet_remap(
    readers: Seq<SegmentReader>,
    field: int,
    order: Seq<(DocId, SegmentOrdinal)>,
    out: Seq<MergedTerm>,
    t: Seq<Seq<u64>>,
    s: int,
    i: int,
    j: int,
)
    requires
        field_terms_ok(readers, field, order, out),
        tom_ok(readers, field, out, t),
        live_posting(readers, field, s, i, j),
    ensures
        t[s][i] < out.len(),
        out[t[s][i] as int].term@ == term_at(readers, field, s, i).term@,
        t[s][i] <= max_of_all(t),
{
    law_term_survival(readers, field, order, out, term_at(readers, field, s, i).term@);
    lemma_max_of_all(t);
}

pub open spec fn sum_recorded_tokens(readers: Seq<SegmentReader>, field: int, k: int) -> nat
    decreases k,
{
    if k <= 0 {
        0
    } else {
        sum_recorded_tokens(readers, field, k - 1) + readers[k - 1].fields@[field].total_num_tokens as nat
    }
}

/// Without deletes, the token count of a merged field is the sum of the recorded
/// token counts of the segments.
pub proof fn law_token_count_without_deletes(readers: Seq<SegmentReader>, field: int, k: int)
    requires
        0 <= k <= readers.len(),
        forall|s: int| 0 <= s < readers.len() ==> (#[trigger] readers[s]).alive_bitset.is_none(),
    ensures
        total_tokens(readers, field, k) == sum_recorded_tokens(readers, field, k),
    decreases k,
{
    if k > 0 {
        law_token_count_without_deletes(readers, field, k - 1);
    }
}

/// Merging one segment with no deletes keeps every document where it was: new doc
/// id `d` is old doc id `d`, so each document keeps its fast-field values and its
/// stored payload.
pub proof fn law_single_segment_identity(readers: Seq<SegmentReader>, field: int)
    requires
        readers.len() == 1,
        readers[0].alive_bitset.is_none(),
    ensures
        stacked_order(readers, 1) == Seq::new(readers[0].max_doc as nat, |d: int| (d as DocId, 0 as SegmentOrdinal)),
        single_values_of(readers, field, stacked_order(readers, 1)) == Seq::new(
            readers[0].max_doc as nat,
            |d: int| readers[0].fields@[field].values@[d]@[0],
        ),
        payloads_of(readers, stacked_order(readers, 1)) == Seq::new(
            readers[0].max_doc as nat,
            |d: int| readers[0].store.docs@[d]@,
        ),
{
    crate::fastfield::lemma_no_deletes_all_alive(readers[0], readers[0].max_doc as int);
    assert(stacked_order(readers, 0) =~= Seq::<(DocId, SegmentOrdinal)>::empty());
    let order = stacked_order(readers, 1);
    assert(order =~= Seq::new(readers[0].max_doc as nat, |d: int| (d as DocId, 0 as SegmentOrdinal)));
    assert(single_values_of(readers, field, order) =~= Seq::new(
        readers[0].max_doc as nat,
        |d: int| readers[0].fields@[field].values@[d]@[0],
    ));
    assert(payloads_of(readers, order) =~= Seq::new(readers[0].max_doc as nat, |d: int| readers[0].store.docs@[d]@));
}

/// The order in which the stacking order lists documents: by segment, then by doc id.
proof fn lemma_stacked_positions(readers: Seq<SegmentReader>, k: int)
    requires
        0 <= k <= readers.len() <= u32::MAX,
    ensures
        forall|i: int, j: int|
            0 <= i < j < stacked_order(readers, k).len() ==> (#[trigger] stacked_order(readers, k)[i]).1 < (
            #[trigger] stacked_order(readers, k)[j]).1 || (stacked_order(readers, k)[i].1 == stacked_order(readers, k)[j].1
                && stacked_order(readers, k)[i].0 < stacked_order(readers, k)[j].0),
    decreases k,
{
    if k > 0 {
        lemma_stacked_positions(readers, k - 1);
        lemma_stacked_order(readers, k - 1);
        let r = readers[k - 1];
        crate::doc_order::lemma_alive_below(r, r.max_doc as int);
        let a = stacked_order(readers, k - 1);
        let b = crate::doc_order::seg_entries(r, k - 1, r.max_doc as int);
        assert(stacked_order(readers, k) == a + b);
        assert forall|i: int, j: int| 0 <= i < j < (a + b).len() implies (#[trigger] (a + b)[i]).1 < (#[trigger] (a + b)[j]).1
            || ((a + b)[i].1 == (a + b)[j].1 && (a + b)[i].0 < (a + b)[j].0) by {
            if j < a.len() {
                assert((a + b)[i] == a[i] && (a + b)[j] == a[j]);
            } else if i < a.len() {
                assert((a + b)[i] == a[i]);
                assert((a + b)[j] == b[j - a.len()]);
                assert(a[i].1 < k - 1);
            } else {
                assert((a + b)[i] == b[i - a.len()] && (a + b)[j] == b[j - a.len()]);
                assert(r.alive_docs()[i - a.len()] < r.alive_docs()[j - a.len()]);
            }
        }
    }
}

/// A sort value lies between the least and the greatest of its column.
proof fn lemma_key_bounds(r: SegmentReader, field: int, d: int)
    requires
        0 <= d < r.max_doc,
    ensures
        crate::sort_order::seq_min(crate::sort_order::sort_column(r, field)) <= sort_value(r, field, d),
        sort_value(r, field, d) <= crate::sort_order::seq_max(crate::sort_order::sort_column(r, field)),
{
    let col = crate::sort_order::sort_column(r, field);
    crate::sort_order::lemma_seq_min_max(col);
    assert(col[d] == sort_value(r, field, d));
}

/// Disjoint segments in order stay in order over any distance.
proof fn lemma_segments_chain(readers: Seq<SegmentReader>, field: int, asc: bool, s1: int, s2: int)
    requires
        0 <= s1 < s2 < readers.len(),
        crate::sort_order::disjoint_and_sorted(readers, field, asc),
        forall|s: int| 0 <= s < readers.len() ==> (#[trigger] readers[s]).max_doc > 0,
    ensures
        crate::sort_order::segments_in_order(readers[s1], readers[s2], field, asc),
    decreases s2 - s1,
{
    if s2 > s1 + 1 {
        lemma_segments_chain(readers, field, asc, s1, s2 - 1);
        assert(crate::sort_order::segments_in_order(readers[s2 - 1], readers[s2], field, asc));
        lemma_key_bounds(readers[s2 - 1], field, 0);
    } else {
        assert(crate::sort_order::segments_in_order(readers[s1], readers[s1 + 1], field, asc));
    }
}

/// When the segments are each sorted, disjoint and in order on the sort field,
/// the sorted doc-id mapping is the stacking order itself: re-sorting changes nothing.
pub proof fn law_stacking_boundary(readers: Seq<SegmentReader>, field: int, asc: bool, m: Seq<(DocId, SegmentOrdinal)>)
    requires
        readers.len() <= u32::MAX,
        forall|s: int| 0 <= s < readers.len() ==> (#[trigger] readers[s]).max_doc > 0,
        crate::sort_order::segments_sorted(readers, field, asc),
        crate::sort_order::disjoint_and_sorted(readers, field, asc),
        is_sorted_mapping(readers, field, asc, m),
    ensures
        m == stacked_order(readers, readers.len() as int),
{
    broadcast use vstd::seq_lib::group_to_multiset_ensures;

    let st = stacked_order(readers, readers.len() as int);
    let leq = |a: (DocId, SegmentOrdinal), b: (DocId, SegmentOrdinal)|
        a == b || crate::sort_order::entry_before(asc, keyed(readers, field, a), keyed(readers, field, b));
    lemma_stacked_order(readers, readers.len() as int);
    lemma_stacked_positions(readers, readers.len() as int);
    // The relation is a total order.
    assert forall|x: (DocId, SegmentOrdinal), y: (DocId, SegmentOrdinal), z: (DocId, SegmentOrdinal)|
        #[trigger] leq(x, y) && #[trigger] leq(y, z) implies leq(x, z) by {}
    assert forall|x: (DocId, SegmentOrdinal), y: (DocId, SegmentOrdinal)| #[trigger] leq(x, y) && #[trigger] leq(y, x) implies x == y by {}
    assert forall|x: (DocId, SegmentOrdinal), y: (DocId, SegmentOrdinal)| #[trigger] leq(x, y) || #[trigger] leq(y, x) by {}
    assert(vstd::relations::total_ordering(leq));
    // The mapping is sorted.
    assert forall|i: int, j: int| 0 <= i < j < m.len() implies #[trigger] leq(m[i], m[j]) by {
        lemma_sorted_pairwise(readers, field, asc, m, i, j);
    }
    // The stacking order is sorted.
    assert forall|i: int, j: int| 0 <= i < j < st.len() implies #[trigger] leq(st[i], st[j]) by {
        let (d1, s1) = st[i];
        let (d2, s2) = st[j];
        assert(pair_alive(readers, st[i]) && pair_alive(readers, st[j]));
        if s1 == s2 {
            assert(crate::sort_order::segment_sorted(readers[s1 as int], field, asc));
        } else {
            lemma_segments_chain(readers, field, asc, s1 as int, s2 as int);
            lemma_key_bounds(readers[s1 as int], field, d1 as int);
            lemma_key_bounds(readers[s2 as int], field, d2 as int);
        }
    }
    // Both hold the same documents, once each.
    m.lemma_multiset_has_no_duplicates();
    st.lemma_multiset_has_no_duplicates();
    assert forall|e: (DocId, SegmentOrdinal)| m.to_multiset().count(e) == st.to_multiset().count(e) by {
        if st.contains(e) {
            assert(m.contains(e));
        } else if m.contains(e) {
            let i = choose|i: int| 0 <= i < m.len() && m[i] == e;
            assert(st.contains(m[i]));
        }
    }
    assert(m.to_multiset() =~= st.to_multiset());
    vstd::seq_lib::lemma_sorted_unique(m, st, leq);
}

/// A sequence sorted on consecutive entries is sorted on every pair.
proof fn lemma_sorted_pairwise(readers: Seq<SegmentReader>, field: int, asc: bool, m: Seq<(DocId, SegmentOrdinal)>, i: int, j: int)
    requires
        is_sorted_mapping(readers, field, asc, m),
        0 <= i < j < m.len(),
    ensures
        crate::sort_order::entry_before(asc, keyed(readers, field, m[i]), keyed(readers, field, m[j])),
    decreases j - i,
{
    assert(crate::sort_order::entry_before(asc, keyed(readers, field, m[j - 1]), keyed(readers, field, m[j])));
    if i < j - 1 {
        lemma_sorted_pairwise(readers, field, asc, m, i, j - 1);
    }
}

/// The entries of `m` that come from segment `s`, in order.
pub open spec fn seg_entries_of(m: Seq<(DocId, SegmentOrdinal)>, s: SegmentOrdinal) -> Seq<(DocId, SegmentOrdinal)>
    decreases m.len(),
{
    if m.len() == 0 {
        seq![]
    } else if m.last().1 == s {
        seg_entries_of(m.drop_last(), s).push(m.last())
    } else {
        seg_entries_of(m.drop_last(), s)
    }
}

/// `seg_entries_of` has `seg_count` entries, once each, all from `m` and from segment `s`.
proof fn lemma_seg_entries_of(m: Seq<(DocId, SegmentOrdinal)>, s: SegmentOrdinal)
    requires
        m.no_duplicates(),
    ensures
        seg_entries_of(m, s).len() == seg_count(m, s),
        seg_entries_of(m, s).no_duplicates(),
        forall|e: (DocId, SegmentOrdinal)| #[trigger] seg_entries_of(m, s).contains(e) ==> m.contains(e) && e.1 == s,
    decreases m.len(),
{
    if m.len() > 0 {
        let p = m.drop_last();
        assert forall|a: int, b: int| 0 <= a < p.len() && 0 <= b < p.len() && a != b implies p[a] != p[b] by {
            assert(p[a] == m[a] && p[b] == m[b]);
        }
        lemma_seg_entries_of(p, s);
        let q = seg_entries_of(p, s);
        assert forall|e: (DocId, SegmentOrdinal)| #[trigger] seg_entries_of(m, s).contains(e) implies m.contains(e) && e.1 == s by {
            if q.contains(e) {
                let k = choose|k: int| 0 <= k < p.len() && p[k] == e;
                assert(m[k] == e);
            } else {
                assert(m[m.len() - 1] == e);
            }
        }
        if m.last().1 == s {
            assert forall|a: int, b: int| 0 <= a < q.push(m.last()).len() && 0 <= b < q.push(m.last()).len() && a != b
                implies q.push(m.last())[a] != q.push(m.last())[b] by {
                if a < q.len() && b < q.len() {
                } else if a < q.len() {
                    assert(q.contains(q[a]));
                    let k = choose|k: int| 0 <= k < p.len() && p[k] == q[a];
                    assert(m[k] != m[m.len() - 1]);
                } else if b < q.len() {
                    assert(q.contains(q[b]));
                    let k = choose|k: int| 0 <= k < p.len() && p[k] == q[b];
                    assert(m[k] != m[m.len() - 1]);
                }
            }
        }
    }
}

/// A doc-id mapping that lists every live document once never runs a store out.
pub proof fn lemma_valid_mapping_not_exhausted(readers: Seq<SegmentReader>, m: Seq<(DocId, SegmentOrdinal)>)
    requires
        readers.len() <= u32::MAX,
        valid_mapping(readers, m),
    ensures
        !store_exhausted(readers, m),
{
    lemma_stacked_order(readers, readers.len() as int);
    let order = stacked_order(readers, readers.len() as int);
    if store_exhausted(readers, m) {
        let i = choose|i: int| 0 <= i < m.len() && seg_count(m.take(i), (#[trigger] m[i]).1) >= readers[m[i].1 as int].alive_docs().len();
        let s = m[i].1;
        let t = m.take(i + 1);
        assert forall|a: int, b: int| 0 <= a < t.len() && 0 <= b < t.len() && a != b implies t[a] != t[b] by {
            assert(t[a] == m[a] && t[b] == m[b]);
        }
        lemma_seg_entries_of(t, s);
        lemma_seg_count_step(m, i);
        let f = seg_entries_of(t, s);
        let r = readers[s as int];
        assert(pair_alive(readers, m[i])) by {
            assert(order.contains(m[i]));
            let k = choose|k: int| 0 <= k < order.len() && order[k] == m[i];
        }
        let e = seg_entries(r, s as int, r.max_doc as int);
        lemma_alive_below(r, r.max_doc as int);
        assert forall|x: (DocId, SegmentOrdinal)| f.to_set().contains(x) implies e.to_set().contains(x) by {
            assert(f.contains(x));
            let k = choose|k: int| 0 <= k < t.len() && t[k] == x;
            assert(m[k] == x);
            assert(order.contains(x));
            let j = choose|j: int| 0 <= j < order.len() && order[j] == x;
            assert(pair_alive(readers, x));
            assert(r.alive_docs().contains(x.0));
            let l = choose|l: int| 0 <= l < r.alive_docs().len() && r.alive_docs()[l] == x.0;
            assert(e[l] == x);
        }
        f.unique_seq_to_set();
        e.lemma_cardinality_of_set();
        vstd::set_lib::lemma_len_subset(f.to_set(), e.to_set());
        assert(false);
    }
}

/// The entries of a segment in a prefix of the mapping are a prefix of its entries
/// in the whole mapping.
proof fn lemma_seg_entries_prefix(m: Seq<(DocId, SegmentOrdinal)>, s: SegmentOrdinal, k: int)
    requires
        0 <= k <= m.len(),
    ensures
        seg_entries_of(m.take(k), s).len() <= seg_entries_of(m, s).len(),
        forall|a: int| 0 <= a < seg_entries_of(m.take(k), s).len() ==> seg_entries_of(m, s)[a] == seg_entries_of(m.take(k), s)[a],
    decreases m.len() - k,
{
    if k < m.len() {
        lemma_seg_entries_prefix(m, s, k + 1);
        assert(m.take(k + 1).drop_last() =~= m.take(k));
    } else {
        assert(m.take(k) =~= m);
    }
}

/// Entry `i` of the mapping is the next entry of its segment.
proof fn lemma_seg_entries_index(m: Seq<(DocId, SegmentOrdinal)>, i: int)
    requires
        0 <= i < m.len(),
    ensures
        seg_count(m.take(i), m[i].1) < seg_entries_of(m, m[i].1).len(),
        seg_entries_of(m, m[i].1)[seg_count(m.take(i), m[i].1) as int] == m[i],
{
    let s = m[i].1;
    lemma_seg_entries_prefix(m, s, i + 1);
    assert(m.take(i + 1).drop_last() =~= m.take(i));
    lemma_seg_entries_len(m.take(i), s);
}

/// `seg_entries_of` has `seg_count` entries.
proof fn lemma_seg_entries_len(m: Seq<(DocId, SegmentOrdinal)>, s: SegmentOrdinal)
    ensures
        seg_entries_of(m, s).len() == seg_count(m, s),
    decreases m.len(),
{
    if m.len() > 0 {
        lemma_seg_entries_len(m.drop_last(), s);
    }
}

/// Each entry of `seg_entries_of(m, s)` stands at some position of `m`, in the same order.
proof fn lemma_seg_entries_positions(m: Seq<(DocId, SegmentOrdinal)>, s: SegmentOrdinal, a: int, b: int)
    requires
        0 <= a < b < seg_entries_of(m, s).len(),
    ensures
        exists|i: int, j: int| 0 <= i < j < m.len() && m[i] == seg_entries_of(m, s)[a] && m[j] == seg_entries_of(m, s)[b],
    decreases m.len(),
{
    let p = m.drop_last();
    if b < seg_entries_of(p, s).len() {
        lemma_seg_entries_positions(p, s, a, b);
        let (i, j) = choose|i: int, j: int| 0 <= i < j < p.len() && p[i] == seg_entries_of(p, s)[a] && p[j] == seg_entries_of(p, s)[b];
        assert(m[i] == p[i] && m[j] == p[j]);
    } else {
        assert(m.last().1 == s);
        lemma_seg_entries_in(p, s, a);
        let i = choose|i: int| 0 <= i < p.len() && p[i] == seg_entries_of(p, s)[a];
        assert(m[i] == p[i]);
        assert(m[m.len() - 1] == seg_entries_of(m, s)[b]);
    }
}

/// Each entry of `seg_entries_of(m, s)` is an entry of `m`.
proof fn lemma_seg_entries_in(m: Seq<(DocId, SegmentOrdinal)>, s: SegmentOrdinal, a: int)
    requires
        0 <= a < seg_entries_of(m, s).len(),
    ensures
        exists|i: int| 0 <= i < m.len() && m[i] == seg_entries_of(m, s)[a],
    decreases m.len(),
{
    let p = m.drop_last();
    if a < seg_entries_of(p, s).len() {
        lemma_seg_entries_in(p, s, a);
        let i = choose|i: int| 0 <= i < p.len() && p[i] == seg_entries_of(p, s)[a];
        assert(m[i] == p[i]);
    } else {
        assert(m[m.len() - 1] == seg_entries_of(m, s)[a]);
    }
}

/// Every entry of segment `s` in `m` is in `seg_entries_of(m, s)`.
proof fn lemma_seg_entries_complete(m: Seq<(DocId, SegmentOrdinal)>, s: SegmentOrdinal, i: int)
    requires
        0 <= i < m.len(),
        m[i].1 == s,
    ensures
        seg_entries_of(m, s).contains(m[i]),
{
    lemma_seg_entries_index(m, i);
}

/// With segments sorted on the sort field, a sorted doc-id mapping lists the
/// documents of each segment in ascending doc-id order: the store iterator of a
/// segment hands out exactly the document that each entry names.
pub proof fn law_sorted_mapping_keeps_segment_order(
    readers: Seq<SegmentReader>,
    field: int,
    asc: bool,
    m: Seq<(DocId, SegmentOrdinal)>,
)
    requires
        readers.len() <= u32::MAX,
        crate::sort_order::segments_sorted(readers, field, asc),
        is_sorted_mapping(readers, field, asc, m),
    ensures
        forall|i: int| 0 <= i < m.len() ==> #[trigger] iter_doc(readers, m, i) == m[i].0,
        iter_payloads(readers, m) == payloads_of(readers, m),
{
    broadcast use vstd::seq_lib::group_to_multiset_ensures;

    law_mapping_bijection(readers, m);
    assert forall|i: int| 0 <= i < m.len() implies #[trigger] iter_doc(readers, m, i) == m[i].0 by {
        let s = m[i].1;
        let f = seg_entries_of(m, s);
        let r = readers[s as int];
        lemma_seg_entries_of(m, s);
        lemma_seg_entries_index(m, i);
        let docs = f.map_values(|e: (DocId, SegmentOrdinal)| e.0);
        let alive = r.alive_docs();
        lemma_alive_below(r, r.max_doc as int);
        // The documents of the segment come in ascending order in the mapping.
        assert forall|a: int, b: int| 0 <= a < b < docs.len() implies #[trigger] docs[a] < #[trigger] docs[b] by {
            lemma_seg_entries_positions(m, s, a, b);
            let (x, y) = choose|x: int, y: int| 0 <= x < y < m.len() && m[x] == f[a] && m[y] == f[b];
            lemma_sorted_pairwise(readers, field, asc, m, x, y);
            assert(f.contains(f[a]) && f.contains(f[b]));
            assert(m[x].1 == s && m[y].1 == s);
            assert(pair_alive(readers, m[x]) && pair_alive(readers, m[y]));
            assert(crate::sort_order::segment_sorted(r, field, asc));
            if m[y].0 < m[x].0 {
                assert(false);
            }
            if m[y].0 == m[x].0 {
                assert(m[x] == m[y]);
            }
        }
        // They are the live documents of the segment.
        let leq = |u: DocId, v: DocId| u <= v;
        assert forall|a: int, b: int| 0 <= a < b < docs.len() implies #[trigger] leq(docs[a], docs[b]) by {}
        assert forall|a: int, b: int| 0 <= a < b < alive.len() implies #[trigger] leq(alive[a], alive[b]) by {}
        assert forall|a: int, b: int| 0 <= a < docs.len() && 0 <= b < docs.len() && a != b implies docs[a] != docs[b] by {
            if a < b {
                assert(docs[a] < docs[b]);
            } else {
                assert(docs[b] < docs[a]);
            }
        }
        assert forall|a: int, b: int| 0 <= a < alive.len() && 0 <= b < alive.len() && a != b implies alive[a] != alive[b] by {
            if a < b {
                assert(alive[a] < alive[b]);
            } else {
                assert(alive[b] < alive[a]);
            }
        }
        docs.lemma_multiset_has_no_duplicates();
        alive.lemma_multiset_has_no_duplicates();
        assert forall|d: DocId| docs.to_multiset().count(d) == alive.to_multiset().count(d) by {
            if docs.contains(d) {
                let a = choose|a: int| 0 <= a < docs.len() && docs[a] == d;
                assert(f.contains(f[a]));
                assert(pair_alive(readers, f[a]));
                assert(alive.contains(d));
            } else if alive.contains(d) {
                let e = (d, s);
                assert(pair_alive(readers, e));
                assert(m.contains(e));
                let k = choose|k: int| 0 <= k < m.len() && m[k] == e;
                lemma_seg_entries_complete(m, s, k);
                let a = choose|a: int| 0 <= a < f.len() && f[a] == e;
                assert(docs[a] == d);
            }
        }
        assert(docs.to_multiset() =~= alive.to_multiset());
        vstd::seq_lib::lemma_sorted_unique(docs, alive, leq);
        assert(docs[seg_count(m.take(i), s) as int] == m[i].0);
    }
    assert(iter_payloads(readers, m) =~= payloads_of(readers, m));
}

/// Every element of a `flat_map` comes from one of the elements mapped.
proof fn lemma_flat_map_member<A, B>(s: Seq<A>, f: spec_fn(A) -> Seq<B>, x: int)
    requires
        0 <= x < flat_map(s, f).len(),
    ensures
        exists|k: int, j: int| 0 <= k < s.len() && 0 <= j < f(s[k]).len() && flat_map(s, f)[x] == #[trigger] f(s[k])[j],
    decreases s.len(),
{
    let p = s.drop_last();
    let head = flat_map(p, f);
    assert(flat_map(s, f) == head + f(s.last()));
    if x < head.len() {
        lemma_flat_map_member(p, f, x);
        let (k, j) = choose|k: int, j: int| 0 <= k < p.len() && 0 <= j < f(p[k]).len() && head[x] == #[trigger] f(p[k])[j];
        assert(s[k] == p[k]);
        assert(flat_map(s, f)[x] == f(s[k])[j]);
    } else {
        let j = x - head.len();
        assert(flat_map(s, f)[x] == f(s[s.len() - 1])[j]);
    }
}

/// The facet values of a segment's live documents name terms that live documents
/// hold (the facet index of the segment lists each document under its facets).
pub open spec fn facets_indexed(readers: Seq<SegmentReader>, field: int) -> bool {
    forall|s: int, d: int, j: int|
        0 <= s < readers.len() && 0 <= d < readers[s].max_doc && readers[s].spec_is_alive(d) && 0 <= j
            < readers[s].fields@[field].values@[d]@.len() ==> exists|jj: int|
            live_posting(readers, field, s, #[trigger] readers[s].fields@[field].values@[d]@[j] as int, jj)
}

/// Every value of a merged facet column is an ordinal of the merged facet
/// dictionary, and at most the bound the column is packed with.
pub proof fn law_facet_column_values(
    readers: Seq<SegmentReader>,
    field: int,
    mo: Option<Vec<(DocId, SegmentOrdinal)>>,
    out: Seq<MergedTerm>,
    t: Seq<Seq<u64>>,
    x: int,
)
    requires
        readers.len() <= u32::MAX,
        valid_mapping_opt(readers, mo),
        field_terms_ok(readers, field, merge_order(readers, mo), out),
        tom_ok(readers, field, out, t),
        facets_indexed(readers, field),
        0 <= x < multi_vals_of(readers, field, Some(t), merge_order(readers, mo)).len(),
    ensures
        multi_vals_of(readers, field, Some(t), merge_order(readers, mo))[x] < out.len(),
        multi_vals_of(readers, field, Some(t), merge_order(readers, mo))[x] <= max_of_all(t),
{
    let order = merge_order(readers, mo);
    let df = |e: (DocId, SegmentOrdinal)| doc_values(readers, field, Some(t), e);
    lemma_merge_order_alive(readers, mo);
    lemma_flat_map_member(order, df, x);
    let (k, j) = choose|k: int, j: int| 0 <= k < order.len() && 0 <= j < df(order[k]).len()
        && flat_map(order, df)[x] == #[trigger] df(order[k])[j];
    let e = order[k];
    assert(pair_alive(readers, e));
    let s = e.1 as int;
    let i = readers[s].fields@[field].values@[e.0 as int]@[j] as int;
    assert(df(e)[j] == t[s][i]);
    let jj = choose|jj: int| live_posting(readers, field, s, i, jj);
    law_facet_remap(readers, field, order, out, t, s, i, jj);
}

/// Merging one segment with no deletes keeps its dictionary and its postings: every
/// term with a posting is there, and every merged entry is a posting of the same
/// term at the same doc id, with the same frequency and positions (as deltas).
/// Without deletes, a posting is live when it lies within the segment.
pub proof fn law_single_segment_postings(readers: Seq<SegmentReader>, field: int, out: Seq<MergedTerm>, k: int, a: int)
    requires
        readers.len() == 1,
        readers[0].alive_bitset.is_none(),
        field_terms_ok(readers, field, stacked_order(readers, 1), out),
        0 <= k < out.len(),
        0 <= a < out[k].postings@.len(),
    ensures
        exists|i: int, j: int| {
            &&& 0 <= i < terms_len(readers, field, 0)
            &&& 0 <= j < term_at(readers, field, 0, i).postings@.len()
            &&& term_at(readers, field, 0, i).term@ == out[k].term@
            &&& #[trigger] crate::postings::posting_at(readers, field, 0, i, j).doc == out[k].postings@[a].doc
            &&& crate::postings::posting_at(readers, field, 0, i, j).term_freq == out[k].postings@[a].term_freq
            &&& deltas_of(crate::postings::posting_at(readers, field, 0, i, j).positions@) == out[k].postings@[a].position_deltas@
        },
        forall|i: int, j: int|
            #[trigger] live_posting(readers, field, 0, i, j) ==> has_term(out, term_at(readers, field, 0, i).term@),
{
    law_single_segment_identity(readers, field);
    let order = stacked_order(readers, 1);
    assert(crate::postings::postings_ok(readers, field, order, out[k].term@, out[k].postings@));
    let e = out[k].postings@[a];
    assert(has_source(readers, field, order, out[k].term@, e));
    let (s, i, j) = choose|s: int, i: int, j: int| {
        &&& live_posting(readers, field, s, i, j)
        &&& term_at(readers, field, s, i).term@ == out[k].term@
        &&& #[trigger] crate::postings::entry_matches(readers, field, order, s, i, j, e)
    };
    assert(order[e.doc as int] == (e.doc, 0 as SegmentOrdinal));
    assert forall|i: int, j: int|
        #[trigger] live_posting(readers, field, 0, i, j) implies has_term(out, term_at(readers, field, 0, i).term@) by {
        law_term_survival(readers, field, order, out, term_at(readers, field, 0, i).term@);
    }
}

} // verus!
