use vstd::prelude::*;
use crate::schema::DocId;
use crate::segment::{SegmentOrdinal, SegmentReader};

verus! {

/// The live documents of one segment, tagged with its ordinal.
pub open spec fn seg_entries(r: SegmentReader, seg: int, n: int) -> Seq<(DocId, SegmentOrdinal)> {
    r.alive_below(n).map_values(|d: DocId| (d, seg as SegmentOrdinal))
}

/// The order of documents when segments are stacked: the live documents of
/// segment 0, then those of segment 1, and so on, each in ascending doc id.
pub open spec fn stacked_order(readers: Seq<SegmentReader>, k: int) -> Seq<(DocId, SegmentOrdinal)>
    decreases k,
{
    if k <= 0 {
        seq![]
    } else {
        stacked_order(readers, k - 1) + seg_entries(readers[k - 1], k - 1, readers[k - 1].max_doc as int)
    }
}

/// The stacking order up to document `d` of segment `s`.
pub open spec fn stacked_prefix(readers: Seq<SegmentReader>, s: int, d: int) -> Seq<(DocId, SegmentOrdinal)> {
    stacked_order(readers, s) + seg_entries(readers[s], s, d)
}

/// The sum of the live documents of the first `k` segments.
pub open spec fn sum_live(readers: Seq<SegmentReader>, k: int) -> nat
    decreases k,
{
    if k <= 0 {
        0
    } else {
        sum_live(readers, k - 1) + readers[k - 1].spec_num_docs()
    }
}

/// `(doc, segment)` names a live document of one of the segments.
pub open spec fn pair_alive(readers: Seq<SegmentReader>, e: (DocId, SegmentOrdinal)) -> bool {
    &&& e.1 < readers.len()
    &&& e.0 < readers[e.1 as int].max_doc
    &&& readers[e.1 as int].spec_is_alive(e.0 as int)
}

/// The live documents below `n` are ascending, live, and all there.
pub proof fn lemma_alive_below(r: SegmentReader, n: int)
    requires
        0 <= n <= r.max_doc,
    ensures
        forall|i: int, j: int|
            0 <= i < j < r.alive_below(n).len() ==> r.alive_below(n)[i] < r.alive_below(n)[j],
        forall|i: int|
            0 <= i < r.alive_below(n).len() ==> r.alive_below(n)[i] < n && r.spec_is_alive(
                r.alive_below(n)[i] as int,
            ),
        forall|d: DocId| d < n && r.spec_is_alive(d as int) ==> r.alive_below(n).contains(d),
        r.alive_below(n).len() <= n,
    decreases n,
{
    if n > 0 {
        lemma_alive_below(r, n - 1);
        let p = r.alive_below(n - 1);
        let q = r.alive_below(n);
        assert forall|i: int, j: int| 0 <= i < j < q.len() implies q[i] < q[j] by {
            if j < p.len() {
                assert(q[i] == p[i] && q[j] == p[j]);
            } else {
                assert(q[i] == p[i]);
            }
        }
        assert forall|i: int| 0 <= i < q.len() implies q[i] < n && r.spec_is_alive(q[i] as int) by {
            if i < p.len() {
                assert(q[i] == p[i]);
            }
        }
        if r.spec_is_alive(n - 1) {
            assert forall|d: DocId| d < n && r.spec_is_alive(d as int) implies r.alive_below(
                n,
            ).contains(d) by {
                if d == n - 1 {
                    assert(r.alive_below(n)[p.len() as int] == d);
                } else {
                    let i = choose|i: int| 0 <= i < p.len() && p[i] == d;
                    assert(r.alive_below(n)[i] == d);
                }
            }
        }
    }
}

/// Extending the stacking order by one document of segment `s`.
pub proof fn lemma_stacked_step(readers: Seq<SegmentReader>, s: int, d: int)
    requires
        0 <= s < readers.len(),
        0 <= d,
    ensures
        stacked_prefix(readers, s, d + 1) == (if readers[s].spec_is_alive(d) {
            stacked_prefix(readers, s, d).push((d as DocId, s as SegmentOrdinal))
        } else {
            stacked_prefix(readers, s, d)
        }),
        stacked_prefix(readers, s, 0) == stacked_order(readers, s),
        stacked_prefix(readers, s, readers[s].max_doc as int) == stacked_order(readers, s + 1),
{
    let r = readers[s];
    assert(r.alive_below(0) =~= seq![]);
    assert(stacked_prefix(readers, s, 0) =~= stacked_order(readers, s));
    if r.spec_is_alive(d) {
        assert(seg_entries(r, s, d + 1) =~= seg_entries(r, s, d).push((d as DocId, s as SegmentOrdinal)));
        assert(stacked_prefix(readers, s, d + 1) =~= stacked_prefix(readers, s, d).push(
            (d as DocId, s as SegmentOrdinal),
        ));
    } else {
        assert(seg_entries(r, s, d + 1) =~= seg_entries(r, s, d));
    }
}

/// Every entry of the stacking order is a live document, each appears once,
/// and every live document appears.
pub proof fn lemma_stacked_order(readers: Seq<SegmentReader>, k: int)
    requires
        0 <= k <= readers.len(),
        readers.len() <= u32::MAX,
    ensures
        stacked_order(readers, k).len() == sum_live(readers, k),
        stacked_order(readers, k).no_duplicates(),
        forall|i: int|
            0 <= i < stacked_order(readers, k).len() ==> pair_alive(readers, #[trigger] stacked_order(readers, k)[i])
                && stacked_order(readers, k)[i].1 < k,
        forall|e: (DocId, SegmentOrdinal)|
            pair_alive(readers, e) && e.1 < k ==> stacked_order(readers, k).contains(e),
    decreases k,
{
    if k > 0 {
        lemma_stacked_order(readers, k - 1);
        let r = readers[k - 1];
        lemma_alive_below(r, r.max_doc as int);
        let a = stacked_order(readers, k - 1);
        let b = seg_entries(r, k - 1, r.max_doc as int);
        assert(stacked_order(readers, k) == a + b);
        assert forall|i: int, j: int| 0 <= i < j < b.len() implies b[i] != b[j] by {
            assert(r.alive_docs()[i] < r.alive_docs()[j]);
        }
        assert(b.no_duplicates());
        assert forall|i: int| 0 <= i < b.len() implies pair_alive(readers, b[i]) && b[i].1 == k - 1 by {
            assert(b[i] == (r.alive_docs()[i], (k - 1) as SegmentOrdinal));
        }
        assert forall|i: int, j: int| 0 <= i < a.len() && 0 <= j < b.len() implies a[i] != b[j] by {
            assert(a[i].1 < k - 1);
        }
        assert forall|i: int| 0 <= i < (a + b).len() implies pair_alive(readers, #[trigger] (a + b)[i])
            && (a + b)[i].1 < k by {
            if i < a.len() {
                assert((a + b)[i] == a[i]);
            } else {
                assert((a + b)[i] == b[i - a.len()]);
            }
        }
        vstd::seq_lib::lemma_no_dup_in_concat(a, b);
        assert forall|e: (DocId, SegmentOrdinal)|
            pair_alive(readers, e) && e.1 < k implies stacked_order(readers, k).contains(e) by {
            if e.1 < k - 1 {
                let i = choose|i: int| 0 <= i < a.len() && a[i] == e;
                assert((a + b)[i] == e);
            } else {
                assert(r.alive_docs().contains(e.0));
                let i = choose|i: int| 0 <= i < r.alive_docs().len() && r.alive_docs()[i] == e.0;
                assert((a + b)[a.len() + i] == e);
            }
        }
    }
}

/// A doc-id mapping that holds every live document exactly once, and nothing else.
pub open spec fn valid_mapping(readers: Seq<SegmentReader>, m: Seq<(DocId, SegmentOrdinal)>) -> bool {
    let order = stacked_order(readers, readers.len() as int);
    &&& m.len() == order.len()
    &&& m.no_duplicates()
    &&& forall|i: int| 0 <= i < m.len() ==> order.contains(#[trigger] m[i])
    &&& forall|e: (DocId, SegmentOrdinal)| #[trigger] order.contains(e) ==> m.contains(e)
}

pub open spec fn valid_mapping_opt(readers: Seq<SegmentReader>, m: Option<Vec<(DocId, SegmentOrdinal)>>) -> bool {
    match m {
        Some(v) => valid_mapping(readers, v@),
        None => true,
    }
}

/// The documents of the merged segment: position `i` is new doc id `i`.
pub open spec fn merge_order(
    readers: Seq<SegmentReader>,
    m: Option<Vec<(DocId, SegmentOrdinal)>>,
) -> Seq<(DocId, SegmentOrdinal)> {
    match m {
        Some(v) => v@,
        None => stacked_order(readers, readers.len() as int),
    }
}

/// Every entry of the merge order is a live document.
pub proof fn lemma_merge_order_alive(readers: Seq<SegmentReader>, m: Option<Vec<(DocId, SegmentOrdinal)>>)
    requires
        valid_mapping_opt(readers, m),
        readers.len() <= u32::MAX,
    ensures
        forall|i: int| 0 <= i < merge_order(readers, m).len() ==> pair_alive(readers, #[trigger] merge_order(readers, m)[i]),
        merge_order(readers, m).len() == sum_live(readers, readers.len() as int),
{
    lemma_stacked_order(readers, readers.len() as int);
    let order = stacked_order(readers, readers.len() as int);
    if let Some(v) = m {
        assert forall|i: int| 0 <= i < v@.len() implies pair_alive(readers, #[trigger] v@[i]) by {
            assert(order.contains(v@[i]));
            let j = choose|j: int| 0 <= j < order.len() && order[j] == v@[i];
        }
    }
}

} // verus!
