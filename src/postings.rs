use vstd::prelude::*;
use crate::doc_order::{
    lemma_stacked_order, lemma_stacked_step, merge_order, pair_alive, seg_entries, stacked_order, stacked_prefix,
    sum_live, valid_mapping, valid_mapping_opt,
};
use crate::fastfield::{append_bytes, lemma_sum_live_mono};
use crate::fieldnorm::{compute_total_num_tokens, norms_ok, sat, total_tokens};
use crate::merger::IndexMerger;
use crate::schema::{DocId, FieldKind};
use crate::segment::{lemma_lex_transitive, lex_lt, postings_sorted, Posting, SegmentOrdinal, SegmentReader, TermPostings};
use crate::term_merge::{
    cur_term, in_matching, lemma_matching_facts, lemma_merge_step, lemma_remaining_decreases, lemma_remaining_nonneg,
    merge_state_ok, remaining, taken_terms_ok,
};
use crate::term_ordinals::TermOrdinalMapping;

verus! {

/// Position deltas: the first position, then the difference to the previous one.
pub open spec fn deltas_of(p: Seq<u32>) -> Seq<u32> {
    Seq::new(p.len(), |i: int| if i == 0 { p[0] } else { (p[i] - p[i - 1]) as u32 })
}

pub open spec fn ascending(p: Seq<u32>) -> bool {
    forall|i: int, j: int| 0 <= i <= j < p.len() ==> p[i] <= p[j]
}

/// Turns absolute positions into deltas, in a buffer that is reused from one
/// document to the next.
pub struct DeltaComputer {
    pub buffer: Vec<u32>,
}

impl DeltaComputer {
    pub fn new() -> (r: DeltaComputer)
        ensures
            r.buffer@.len() == 512,
    {
        let mut buffer: Vec<u32> = Vec::new();
        let mut i: usize = 0;
        while i < 512
            invariant
                i <= 512,
                buffer@.len() == i,
            decreases 512 - i,
        {
            buffer.push(0);
            i = i + 1;
        }
        DeltaComputer { buffer }
    }

    /// Writes the deltas of `positions` at the start of the buffer and returns
    /// how many there are.
    pub fn compute_delta(&mut self, positions: &Vec<u32>) -> (r: usize)
        requires
            ascending(positions@),
        ensures
            r == positions@.len(),
            final(self).buffer@.len() >= r,
            final(self).buffer@.take(r as int) == deltas_of(positions@),
    {
        while self.buffer.len() < positions.len()
            invariant
                ascending(positions@),
            decreases positions@.len() - self.buffer@.len(),
        {
            self.buffer.push(0);
        }
        let mut last_pos: u32 = 0;
        let mut i: usize = 0;
        while i < positions.len()
            invariant
                ascending(positions@),
                self.buffer@.len() >= positions@.len(),
                i <= positions@.len(),
                i > 0 ==> last_pos == positions@[i - 1],
                i == 0 ==> last_pos == 0,
                forall|k: int| 0 <= k < i ==> self.buffer@[k] == deltas_of(positions@)[k],
            decreases positions@.len() - i,
        {
            let cur_pos = positions[i];
            self.buffer.set(i, cur_pos - last_pos);
            last_pos = cur_pos;
            i = i + 1;
        }
        assert(self.buffer@.take(positions@.len() as int) =~= deltas_of(positions@));
        positions.len()
    }
}

/// The new doc id of a document in the stacking order: the live documents of the
/// segments before it, then those of its segment below it.
pub open spec fn stack_id(readers: Seq<SegmentReader>, s: int, d: int) -> nat {
    sum_live(readers, s) + readers[s].alive_below(d).len()
}

/// The stacking order is a prefix of itself extended by later documents.
pub proof fn lemma_stacked_prefix_of_order(readers: Seq<SegmentReader>, s: int, d: int)
    requires
        0 <= s < readers.len() <= u32::MAX,
        0 <= d < readers[s].max_doc,
        readers[s].spec_is_alive(d),
    ensures
        stacked_prefix(readers, s, d).len() == stack_id(readers, s, d),
        stack_id(readers, s, d) < stacked_order(readers, readers.len() as int).len(),
        stacked_order(readers, readers.len() as int)[stack_id(readers, s, d) as int] == (d as DocId, s as SegmentOrdinal),
{
    lemma_stacked_order(readers, s);
    lemma_stacked_order(readers, readers.len() as int);
    lemma_stacked_step(readers, s, d);
    let r = readers[s];
    let p = stacked_prefix(readers, s, d + 1);
    let i = stack_id(readers, s, d) as int;
    assert(p[i] == (d as DocId, s as SegmentOrdinal));
    lemma_stacked_extends(readers, s, d + 1, readers.len() as int);
}

/// `stacked_prefix(s, d)` is a prefix of `stacked_order(k)` for every later `k`.
proof fn lemma_stacked_extends(readers: Seq<SegmentReader>, s: int, d: int, k: int)
    requires
        0 <= s < k <= readers.len() <= u32::MAX,
        0 <= d <= readers[s].max_doc,
    ensures
        stacked_prefix(readers, s, d).len() <= stacked_order(readers, k).len(),
        forall|i: int| 0 <= i < stacked_prefix(readers, s, d).len() ==> stacked_order(readers, k)[i] == stacked_prefix(readers, s, d)[i],
    decreases k,
{
    if k > s + 1 {
        lemma_stacked_extends(readers, s, d, k - 1);
    } else {
        let r = readers[s];
        lemma_alive_prefix(r, d, r.max_doc as int);
        let a = stacked_order(readers, s);
        assert(stacked_order(readers, k) == a + seg_entries(r, s, r.max_doc as int));
    }
}

/// The live documents below `d` are a prefix of those below `n`.
pub proof fn lemma_alive_prefix(r: SegmentReader, d: int, n: int)
    requires
        0 <= d <= n,
    ensures
        r.alive_below(d).len() <= r.alive_below(n).len(),
        forall|i: int| 0 <= i < r.alive_below(d).len() ==> r.alive_below(n)[i] == r.alive_below(d)[i],
    decreases n,
{
    if d < n {
        lemma_alive_prefix(r, d, n - 1);
    }
}

/// What the old-to-new doc-id map holds: for each segment and old doc id, the new
/// doc id of a live document (its position in the merge order), `None` for a deleted one.
pub open spec fn doc_map_ok(
    readers: Seq<SegmentReader>,
    order: Seq<(DocId, SegmentOrdinal)>,
    map: Seq<Seq<Option<DocId>>>,
) -> bool {
    &&& map.len() == readers.len()
    &&& forall|s: int| 0 <= s < readers.len() ==> (#[trigger] map[s]).len() == readers[s].max_doc
    &&& forall|s: int, d: int| 0 <= s < readers.len() && 0 <= d < readers[s].max_doc ==> {
        &&& (#[trigger] map[s][d]).is_some() == readers[s].spec_is_alive(d)
        &&& map[s][d] matches Some(x) ==> x < order.len() && order[x as int] == (d as DocId, s as SegmentOrdinal)
    }
}

pub open spec fn map_view(m: Seq<Vec<Option<DocId>>>) -> Seq<Seq<Option<DocId>>> {
    m.map_values(|v: Vec<Option<DocId>>| v@)
}

impl IndexMerger {
    /// For each segment, the new doc id of each of its documents (`None` for a deleted one).
    fn merged_doc_id_map(&self, doc_id_mapping: &Option<Vec<(DocId, SegmentOrdinal)>>) -> (r: Vec<Vec<Option<DocId>>>)
        requires
            self.wf(),
            valid_mapping_opt(self.readers@, *doc_id_mapping),
        ensures
            doc_map_ok(self.readers@, merge_order(self.readers@, *doc_id_mapping), map_view(r@)),
            doc_id_mapping.is_none() ==> forall|s: int, d: int|
                0 <= s < self.readers@.len() && 0 <= d < self.readers@[s].max_doc && self.readers@[s].spec_is_alive(d)
                    ==> (#[trigger] map_view(r@)[s][d]) == Some(stack_id(self.readers@, s, d) as DocId),
    {
        let ghost readers = self.readers@;
        let ghost order = merge_order(readers, *doc_id_mapping);
        let mut map: Vec<Vec<Option<DocId>>> = Vec::new();
        proof {
            lemma_stacked_order(readers, readers.len() as int);
        }
        match doc_id_mapping {
            Some(mapping) => {
                let mut s: usize = 0;
                while s < self.readers.len()
                    invariant
                        self.wf(),
                        readers == self.readers@,
                        s <= readers.len(),
                        map@.len() == s,
                        forall|k: int| 0 <= k < s ==> (#[trigger] map@[k])@ == Seq::new(
                            readers[k].max_doc as nat,
                            |d: int| None::<DocId>,
                        ),
                    decreases readers.len() - s,
                {
                    let n = self.readers[s].max_doc;
                    let mut row: Vec<Option<DocId>> = Vec::new();
                    let mut d: u32 = 0;
                    while d < n
                        invariant
                            d <= n,
                            row@ =~= Seq::new(d as nat, |k: int| None::<DocId>),
                        decreases n - d,
                    {
                        row.push(None);
                        d = d + 1;
                    }
                    map.push(row);
                    s = s + 1;
                }
                let mut i: usize = 0;
                while i < mapping.len()
                    invariant
                        self.wf(),
                        readers == self.readers@,
                        order == mapping@,
                        valid_mapping(readers, mapping@),
                        i <= mapping@.len(),
                        map@.len() == readers.len(),
                        forall|s: int| 0 <= s < readers.len() ==> (#[trigger] map@[s])@.len() == readers[s].max_doc,
                        forall|s: int, d: int| 0 <= s < readers.len() && 0 <= d < readers[s].max_doc ==> {
                            &&& (#[trigger] map@[s]@[d]) matches Some(x) ==> x < i && order[x as int] == (
                                d as DocId,
                                s as SegmentOrdinal,
                            )
                            &&& map@[s]@[d].is_none() ==> forall|j: int| 0 <= j < i ==> order[j] != (
                                d as DocId,
                                s as SegmentOrdinal,
                            )
                        },
                    decreases mapping@.len() - i,
                {
                    let (doc, seg) = mapping[i];
                    proof {
                        lemma_stacked_order(readers, readers.len() as int);
                    }
                    assert(stacked_order(readers, readers.len() as int).contains(mapping@[i as int]));
                    let ghost k = choose|k: int| 0 <= k < stacked_order(readers, readers.len() as int).len()
                        && stacked_order(readers, readers.len() as int)[k] == mapping@[i as int];
                    assert(pair_alive(readers, stacked_order(readers, readers.len() as int)[k]));
                    assert(pair_alive(readers, mapping@[i as int]));
                    let ghost old_map = map@;
                    let mut row: Vec<Option<DocId>> = Vec::new();
                    map.set_and_swap(seg as usize, &mut row);
                    assert(row@.len() == readers[seg as int].max_doc);
                    row.set(doc as usize, Some(i as DocId));
                    map.set_and_swap(seg as usize, &mut row);
                    proof {
                        assert((seg as usize) as int == seg as int);
                        assert forall|s: int, d: int| 0 <= s < readers.len() && 0 <= d < readers[s].max_doc implies {
                            &&& (#[trigger] map@[s]@[d]) matches Some(x) ==> x < i + 1 && order[x as int] == (
                                d as DocId,
                                s as SegmentOrdinal,
                            )
                            &&& map@[s]@[d].is_none() ==> forall|j: int| 0 <= j < i + 1 ==> order[j] != (
                                d as DocId,
                                s as SegmentOrdinal,
                            )
                        } by {
                            if s == seg as int && d == doc as int {
                                assert(map@[s]@[d] == Some(i as DocId));
                                assert((i as DocId) as int == i) by {
                                    assert(mapping@.len() == self.max_doc);
                                }
                            } else {
                                assert(map@[s]@[d] == old_map[s]@[d]);
                                if map@[s]@[d].is_none() {
                                    assert(d as DocId != doc || s as SegmentOrdinal != seg);
                                }
                            }
                        }
                        assert(forall|s: int| 0 <= s < readers.len() ==> (#[trigger] map@[s])@.len() == readers[s].max_doc);
                    }
                    i = i + 1;
                }
                proof {
                    assert forall|s: int, d: int| 0 <= s < readers.len() && 0 <= d < readers[s].max_doc implies {
                        &&& (#[trigger] map_view(map@)[s][d]).is_some() == readers[s].spec_is_alive(d)
                        &&& map_view(map@)[s][d] matches Some(x) ==> x < order.len() && order[x as int] == (
                            d as DocId,
                            s as SegmentOrdinal,
                        )
                    } by {
                        assert(map_view(map@)[s] == map@[s]@);
                        let e = (d as DocId, s as SegmentOrdinal);
                        if readers[s].spec_is_alive(d) {
                            assert(pair_alive(readers, e));
                            assert(stacked_order(readers, readers.len() as int).contains(e));
                            assert(mapping@.contains(e));
                        } else if map@[s]@[d].is_some() {
                            let x = map@[s]@[d].unwrap();
                            assert(stacked_order(readers, readers.len() as int).contains(order[x as int]));
                        }
                    }
                }
            },
            None => {
                let mut next: u32 = 0;
                let mut s: usize = 0;
                while s < self.readers.len()
                    invariant
                        self.wf(),
                        readers == self.readers@,
                        order == stacked_order(readers, readers.len() as int),
                        s <= readers.len(),
                        map@.len() == s,
                        next == sum_live(readers, s as int),
                        forall|k: int| 0 <= k < s ==> (#[trigger] map@[k])@.len() == readers[k].max_doc,
                        forall|k: int, d: int| 0 <= k < s && 0 <= d < readers[k].max_doc ==> (#[trigger] map@[k]@[d]) == if readers[k].spec_is_alive(d) {
                            Some(stack_id(readers, k, d) as DocId)
                        } else {
                            None
                        },
                    decreases readers.len() - s,
                {
                    let reader = &self.readers[s];
                    assert(reader.wf(self.schema));
                    let mut row: Vec<Option<DocId>> = Vec::new();
                    let mut d: u32 = 0;
                    proof {
                        lemma_sum_live_le(readers, s as int + 1);
                    }
                    while d < reader.max_doc
                        invariant
                            self.wf(),
                            readers == self.readers@,
                            s < readers.len(),
                            *reader == readers[s as int],
                            d <= reader.max_doc,
                            row@.len() == d,
                            next == sum_live(readers, s as int) + reader.alive_below(d as int).len(),
                            sum_live(readers, s as int + 1) <= self.max_doc,
                            sum_live(readers, s as int + 1) == sum_live(readers, s as int) + reader.alive_docs().len(),
                            forall|k: int| 0 <= k < d ==> row@[k] == if reader.spec_is_alive(k) {
                                Some(stack_id(readers, s as int, k) as DocId)
                            } else {
                                None
                            },
                        decreases reader.max_doc - d,
                    {
                        proof {
                            lemma_alive_prefix(*reader, d + 1, reader.max_doc as int);
                        }
                        if reader.is_alive(d) {
                            row.push(Some(next));
                            next = next + 1;
                        } else {
                            row.push(None);
                        }
                        d = d + 1;
                    }
                    map.push(row);
                    s = s + 1;
                }
                proof {
                    assert forall|s: int, d: int| 0 <= s < readers.len() && 0 <= d < readers[s].max_doc implies {
                        &&& (#[trigger] map_view(map@)[s][d]).is_some() == readers[s].spec_is_alive(d)
                        &&& map_view(map@)[s][d] matches Some(x) ==> x < order.len() && order[x as int] == (
                            d as DocId,
                            s as SegmentOrdinal,
                        )
                    } by {
                        assert(map_view(map@)[s] == map@[s]@);
                        if readers[s].spec_is_alive(d) {
                            lemma_stacked_prefix_of_order(readers, s, d);
                        }
                    }
                }
            },
        }
        map
    }
}

/// The live documents of the first `k` segments are at most all of them.
proof fn lemma_sum_live_le(readers: Seq<SegmentReader>, k: int)
    requires
        0 <= k <= readers.len(),
    ensures
        sum_live(readers, k) <= sum_live(readers, readers.len() as int),
    decreases readers.len() - k,
{
    if k < readers.len() {
        lemma_sum_live_le(readers, k + 1);
    }
}

/// One document of a merged posting list.
#[derive(Clone, Debug)]
pub struct DocPostings {
    pub doc: DocId,
    pub term_freq: u32,
    pub position_deltas: Vec<u32>,
}

pub open spec fn term_at(readers: Seq<SegmentReader>, field: int, s: int, i: int) -> TermPostings {
    readers[s].fields@[field].terms@[i]
}

pub open spec fn posting_at(readers: Seq<SegmentReader>, field: int, s: int, i: int, j: int) -> Posting {
    term_at(readers, field, s, i).postings@[j]
}

/// The posting is there in segment `s` under term `i`, and its document is live.
pub open spec fn live_posting(readers: Seq<SegmentReader>, field: int, s: int, i: int, j: int) -> bool {
    &&& 0 <= s < readers.len()
    &&& 0 <= i < readers[s].fields@[field].terms@.len()
    &&& 0 <= j < term_at(readers, field, s, i).postings@.len()
    &&& readers[s].spec_is_alive(posting_at(readers, field, s, i, j).doc as int)
}

/// A merged entry stands for posting `j` of term `i` of segment `s`.
pub open spec fn entry_matches(
    readers: Seq<SegmentReader>,
    field: int,
    order: Seq<(DocId, SegmentOrdinal)>,
    s: int,
    i: int,
    j: int,
    e: DocPostings,
) -> bool {
    let p = posting_at(readers, field, s, i, j);
    &&& e.doc < order.len()
    &&& order[e.doc as int] == (p.doc, s as SegmentOrdinal)
    &&& e.term_freq == p.term_freq
    &&& e.position_deltas@ == deltas_of(p.positions@)
}

/// The number of postings whose document is live.
pub open spec fn alive_count(r: SegmentReader, p: Seq<Posting>) -> nat
    decreases p.len(),
{
    if p.len() == 0 {
        0
    } else {
        alive_count(r, p.drop_last()) + if r.spec_is_alive(p.last().doc as int) {
            1nat
        } else {
            0nat
        }
    }
}

/// The live postings of the segments and terms of `m`, counted together.
pub open spec fn match_freq(readers: Seq<SegmentReader>, field: int, m: Seq<(usize, usize)>) -> nat
    decreases m.len(),
{
    if m.len() == 0 {
        0
    } else {
        match_freq(readers, field, m.drop_last()) + alive_count(
            readers[m.last().0 as int],
            term_at(readers, field, m.last().0 as int, m.last().1 as int).postings@,
        )
    }
}

/// The merged posting list of a term: ascending new doc ids, each entry one live
/// posting of the term, and each live posting of the term one entry.
pub open spec fn postings_ok(
    readers: Seq<SegmentReader>,
    field: int,
    order: Seq<(DocId, SegmentOrdinal)>,
    term: Seq<u8>,
    out: Seq<DocPostings>,
) -> bool {
    &&& forall|a: int, b: int| 0 <= a < b < out.len() ==> out[a].doc < out[b].doc
    &&& forall|k: int| 0 <= k < out.len() ==> #[trigger] has_source(readers, field, order, term, out[k])
    &&& forall|s: int, i: int, j: int|
        live_posting(readers, field, s, i, j) && term_at(readers, field, s, i).term@ == term
            ==> #[trigger] emitted(readers, field, order, out, s, i, j)
}

/// The entry stands for a live posting of the term.
pub open spec fn has_source(
    readers: Seq<SegmentReader>,
    field: int,
    order: Seq<(DocId, SegmentOrdinal)>,
    term: Seq<u8>,
    e: DocPostings,
) -> bool {
    exists|s: int, i: int, j: int| {
        &&& live_posting(readers, field, s, i, j)
        &&& term_at(readers, field, s, i).term@ == term
        &&& #[trigger] entry_matches(readers, field, order, s, i, j, e)
    }
}

/// Some entry stands for posting `j` of term `i` of segment `s`.
pub open spec fn emitted(
    readers: Seq<SegmentReader>,
    field: int,
    order: Seq<(DocId, SegmentOrdinal)>,
    out: Seq<DocPostings>,
    s: int,
    i: int,
    j: int,
) -> bool {
    exists|k: int| 0 <= k < out.len() && #[trigger] entry_matches(readers, field, order, s, i, j, out[k])
}

pub open spec fn triple_le(a: (u32, u32, u32), b: (u32, u32, u32)) -> bool {
    a.0 < b.0 || (a.0 == b.0 && (a.1 < b.1 || (a.1 == b.1 && a.2 <= b.2)))
}

/// Relies on slice::sort_unstable: the same items, in ascending order, tuples
/// comparing field by field.
#[verifier::external_body]
fn sort_triples(v: &mut Vec<(u32, u32, u32)>)
    ensures
        final(v)@.to_multiset() == old(v)@.to_multiset(),
        forall|i: int, j: int| 0 <= i <= j < final(v)@.len() ==> triple_le(#[trigger] final(v)@[i], #[trigger] final(v)@[j]),
{
    v.sort_unstable();
}

fn copy_prefix(src: &Vec<u32>, n: usize) -> (r: Vec<u32>)
    requires
        n <= src@.len(),
    ensures
        r@ == src@.take(n as int),
{
    let mut out: Vec<u32> = Vec::new();
    let mut i: usize = 0;
    while i < n
        invariant
            n <= src@.len(),
            i <= n,
            out@ =~= src@.take(i as int),
        decreases n - i,
    {
        out.push(src[i]);
        i = i + 1;
    }
    out
}

impl IndexMerger {
    /// The merged entry of posting `j` of term `i` of segment `s`, under its new doc id.
    fn make_entry(
        &self,
        field: usize,
        s: usize,
        i: usize,
        j: usize,
        new_doc: DocId,
        delta_computer: &mut DeltaComputer,
    ) -> (r: DocPostings)
        requires
            self.wf(),
            field < self.schema.fields@.len(),
            s < self.readers@.len(),
            i < self.readers@[s as int].fields@[field as int].terms@.len(),
            j < term_at(self.readers@, field as int, s as int, i as int).postings@.len(),
        ensures
            r.doc == new_doc,
            r.term_freq == posting_at(self.readers@, field as int, s as int, i as int, j as int).term_freq,
            r.position_deltas@ == deltas_of(posting_at(self.readers@, field as int, s as int, i as int, j as int).positions@),
    {
        let reader = &self.readers[s];
        assert(reader.wf(self.schema));
        assert(reader.fields@[field as int].wf(self.schema.fields@[field as int], reader.max_doc as int));
        let posting = &reader.fields[field].terms[i].postings[j];
        assert(postings_sorted(reader.fields@[field as int].terms@[i as int].postings@, reader.max_doc as int));
        let n = delta_computer.compute_delta(&posting.positions);
        let position_deltas = copy_prefix(&delta_computer.buffer, n);
        DocPostings { doc: new_doc, term_freq: posting.term_freq, position_deltas }
    }
}

/// The segments and terms that hold a term: ascending segments, each with the
/// index of the term in its dictionary, and every segment that holds the term.
pub open spec fn matching_ok(readers: Seq<SegmentReader>, field: int, m: Seq<(usize, usize)>, t: Seq<u8>) -> bool {
    &&& forall|k: int| 0 <= k < m.len() ==> {
        &&& (#[trigger] m[k]).0 < readers.len()
        &&& m[k].1 < readers[m[k].0 as int].fields@[field].terms@.len()
        &&& term_at(readers, field, m[k].0 as int, m[k].1 as int).term@ == t
    }
    &&& forall|a: int, b: int| 0 <= a < b < m.len() ==> (#[trigger] m[a]).0 < (#[trigger] m[b]).0
    &&& forall|s: int, i: int|
        0 <= s < readers.len() && 0 <= i < readers[s].fields@[field].terms@.len() && (#[trigger] term_at(
            readers,
            field,
            s,
            i,
        )).term@ == t ==> exists|k: int| 0 <= k < m.len() && m[k].0 as int == s && m[k].1 as int == i
}

/// Appending an entry keeps every posting that was emitted.
proof fn lemma_emitted_push(
    readers: Seq<SegmentReader>,
    field: int,
    order: Seq<(DocId, SegmentOrdinal)>,
    out: Seq<DocPostings>,
    e: DocPostings,
)
    ensures
        forall|s: int, i: int, j: int|
            #[trigger] emitted(readers, field, order, out, s, i, j) ==> emitted(readers, field, order, out.push(e), s, i, j),
{
    assert forall|s: int, i: int, j: int|
        #[trigger] emitted(readers, field, order, out, s, i, j) implies emitted(readers, field, order, out.push(e), s, i, j) by {
        let k = choose|k: int| 0 <= k < out.len() && #[trigger] entry_matches(readers, field, order, s, i, j, out[k]);
        assert(out.push(e)[k] == out[k]);
    }
}

/// `alive_count` over one more posting.
pub proof fn lemma_alive_count_step(r: SegmentReader, p: Seq<Posting>, j: int)
    requires
        0 <= j < p.len(),
    ensures
        alive_count(r, p.take(j + 1)) == alive_count(r, p.take(j)) + if r.spec_is_alive(p[j].doc as int) {
            1nat
        } else {
            0nat
        },
{
    assert(p.take(j + 1).drop_last() =~= p.take(j));
}

/// `match_freq` over one more segment.
pub proof fn lemma_match_freq_step(readers: Seq<SegmentReader>, field: int, m: Seq<(usize, usize)>, k: int)
    requires
        0 <= k < m.len(),
    ensures
        match_freq(readers, field, m.take(k + 1)) == match_freq(readers, field, m.take(k)) + alive_count(
            readers[m[k].0 as int],
            term_at(readers, field, m[k].0 as int, m[k].1 as int).postings@,
        ),
{
    assert(m.take(k + 1).drop_last() =~= m.take(k));
}

pub open spec fn docs_ascending(out: Seq<DocPostings>) -> bool {
    forall|a: int, b: int| 0 <= a < b < out.len() ==> out[a].doc < out[b].doc
}

impl IndexMerger {
    /// The merged posting list of one term, from the segments of `matching`,
    /// concatenated when the segments are stacked.
    fn write_term_postings_stacked(
        &self,
        field: usize,
        matching: &Vec<(usize, usize)>,
        doc_map: &Vec<Vec<Option<DocId>>>,
        term: Ghost<Seq<u8>>,
        delta_computer: &mut DeltaComputer,
    ) -> (r: Vec<DocPostings>)
        requires
            self.wf(),
            field < self.schema.fields@.len(),
            doc_map_ok(self.readers@, stacked_order(self.readers@, self.readers@.len() as int), map_view(doc_map@)),
            forall|s: int, d: int|
                0 <= s < self.readers@.len() && 0 <= d < self.readers@[s].max_doc && self.readers@[s].spec_is_alive(d)
                    ==> (#[trigger] map_view(doc_map@)[s][d]) == Some(stack_id(self.readers@, s, d) as DocId),
            matching_ok(self.readers@, field as int, matching@, term@),
        ensures
            postings_ok(self.readers@, field as int, stacked_order(self.readers@, self.readers@.len() as int), term@, r@),
            r@.len() == match_freq(self.readers@, field as int, matching@),
    {
        let ghost readers = self.readers@;
        let ghost f = field as int;
        let ghost order = stacked_order(readers, readers.len() as int);
        let ghost m = matching@;
        let ghost t = term@;
        let mut out: Vec<DocPostings> = Vec::new();
        let mut k: usize = 0;
        while k < matching.len()
            invariant
                self.wf(),
                readers == self.readers@,
                f == field,
                field < self.schema.fields@.len(),
                order == stacked_order(readers, readers.len() as int),
                m == matching@,
                t == term@,
                doc_map_ok(readers, order, map_view(doc_map@)),
                forall|s: int, d: int|
                    0 <= s < readers.len() && 0 <= d < readers[s].max_doc && readers[s].spec_is_alive(d)
                        ==> (#[trigger] map_view(doc_map@)[s][d]) == Some(stack_id(readers, s, d) as DocId),
                matching_ok(readers, f, m, t),
                k <= m.len(),
                out@.len() == match_freq(readers, f, m.take(k as int)),
                docs_ascending(out@),
                forall|a: int| 0 <= a < out@.len() ==> #[trigger] has_source(readers, f, order, t, out@[a]),
                forall|kk: int, j: int| 0 <= kk < k && live_posting(readers, f, m[kk].0 as int, m[kk].1 as int, j)
                    ==> #[trigger] emitted(readers, f, order, out@, m[kk].0 as int, m[kk].1 as int, j),
                out@.len() > 0 && k < m.len() ==> out@.last().doc < sum_live(readers, m[k as int].0 as int),
            decreases m.len() - k,
        {
            let (s, i) = matching[k];
            assert(m[k as int].0 < readers.len());
            let reader = &self.readers[s];
            assert(reader.wf(self.schema));
            assert(reader.fields@[f].wf(self.schema.fields@[f], reader.max_doc as int));
            let postings = &reader.fields[field].terms[i].postings;
            assert(postings_sorted(postings@, reader.max_doc as int));
            let ghost base = sum_live(readers, s as int);
            let mut j: usize = 0;
            while j < postings.len()
                invariant
                    self.wf(),
                    readers == self.readers@,
                    f == field,
                    field < self.schema.fields@.len(),
                    order == stacked_order(readers, readers.len() as int),
                    m == matching@,
                    t == term@,
                    doc_map_ok(readers, order, map_view(doc_map@)),
                    forall|s: int, d: int|
                        0 <= s < readers.len() && 0 <= d < readers[s].max_doc && readers[s].spec_is_alive(d)
                            ==> (#[trigger] map_view(doc_map@)[s][d]) == Some(stack_id(readers, s, d) as DocId),
                    matching_ok(readers, f, m, t),
                    k < m.len(),
                    (s, i) == m[k as int],
                    s < readers.len(),
                    *reader == readers[s as int],
                    postings == term_at(readers, f, s as int, i as int).postings,
                    postings_sorted(postings@, reader.max_doc as int),
                    base == sum_live(readers, s as int),
                    j <= postings@.len(),
                    out@.len() == match_freq(readers, f, m.take(k as int)) + alive_count(*reader, postings@.take(j as int)),
                    docs_ascending(out@),
                    forall|a: int| 0 <= a < out@.len() ==> #[trigger] has_source(readers, f, order, t, out@[a]),
                    forall|kk: int, jj: int| 0 <= kk < k && live_posting(readers, f, m[kk].0 as int, m[kk].1 as int, jj)
                        ==> #[trigger] emitted(readers, f, order, out@, m[kk].0 as int, m[kk].1 as int, jj),
                    forall|jj: int| 0 <= jj < j && live_posting(readers, f, s as int, i as int, jj)
                        ==> #[trigger] emitted(readers, f, order, out@, s as int, i as int, jj),
                    out@.len() > 0 ==> out@.last().doc < base + reader.alive_below(
                        if j == 0 { 0 } else { postings@[j - 1].doc + 1 },
                    ).len(),
                decreases postings@.len() - j,
            {
                let d = postings[j].doc;
                let ghost g: int = if j == 0 { 0 } else { postings@[j - 1].doc + 1 };
                proof {
                    lemma_alive_count_step(*reader, postings@, j as int);
                    lemma_alive_prefix(*reader, g, d as int);
                    lemma_alive_prefix(*reader, g, d + 1);
                    lemma_alive_prefix(*reader, d as int, d + 1);
                }
                let ghost old_out = out@;
                assert(map_view(doc_map@)[s as int] == doc_map@[s as int]@);
                assert(d < reader.max_doc);
                match doc_map[s][d as usize] {
                    Some(x) => {
                        assert(map_view(doc_map@)[s as int][d as int] == doc_map@[s as int]@[d as int]);
                        let entry = self.make_entry(field, s, i, j, x, delta_computer);
                        proof {
                            assert(reader.spec_is_alive(d as int));
                            lemma_stacked_prefix_of_order(readers, s as int, d as int);
                            lemma_stacked_order(readers, readers.len() as int);
                            assert(x as int == stack_id(readers, s as int, d as int));
                            lemma_emitted_push(readers, f, order, old_out, entry);
                            assert(entry_matches(readers, f, order, s as int, i as int, j as int, entry));
                            assert(live_posting(readers, f, s as int, i as int, j as int));
                            assert(has_source(readers, f, order, t, entry));
                        }
                        out.push(entry);
                        proof {
                            assert(out@[old_out.len() as int] == entry);
                            assert(emitted(readers, f, order, out@, s as int, i as int, j as int));
                            assert forall|jj: int| 0 <= jj < j + 1 && live_posting(readers, f, s as int, i as int, jj)
                                implies #[trigger] emitted(readers, f, order, out@, s as int, i as int, jj) by {
                                if jj < j {
                                    assert(emitted(readers, f, order, old_out, s as int, i as int, jj));
                                }
                            }
                            assert forall|kk: int, jj: int| 0 <= kk < k && live_posting(readers, f, m[kk].0 as int, m[kk].1 as int, jj)
                                implies #[trigger] emitted(readers, f, order, out@, m[kk].0 as int, m[kk].1 as int, jj) by {
                                assert(emitted(readers, f, order, old_out, m[kk].0 as int, m[kk].1 as int, jj));
                            }
                            assert forall|a: int| 0 <= a < out@.len() implies #[trigger] has_source(readers, f, order, t, out@[a]) by {
                                if a < old_out.len() {
                                    assert(out@[a] == old_out[a]);
                                }
                            }
                            assert forall|a: int, b: int| 0 <= a < b < out@.len() implies out@[a].doc < out@[b].doc by {
                                if b < old_out.len() {
                                    assert(out@[a] == old_out[a] && out@[b] == old_out[b]);
                                } else if a < old_out.len() - 1 {
                                    assert(out@[a] == old_out[a]);
                                    assert(old_out[a].doc < old_out.last().doc);
                                } else if a == old_out.len() - 1 {
                                    assert(out@[a] == old_out.last());
                                }
                            }
                        }
                    },
                    None => {
                        assert(map_view(doc_map@)[s as int][d as int] == doc_map@[s as int]@[d as int]);
                        assert(!reader.spec_is_alive(d as int));
                        assert(!live_posting(readers, f, s as int, i as int, j as int));
                    },
                }
                j = j + 1;
            }
            proof {
                assert(postings@.take(postings@.len() as int) =~= postings@);
                lemma_match_freq_step(readers, f, m, k as int);
                lemma_alive_prefix(*reader, if j == 0 { 0 } else { postings@[j - 1].doc + 1 }, reader.max_doc as int);
                if k + 1 < m.len() {
                    assert(m[k as int].0 < m[k + 1].0);
                    lemma_sum_live_mono(readers, s + 1, m[k + 1].0 as int);
                }
            }
            k = k + 1;
        }
        proof {
            assert(m.take(m.len() as int) =~= m);
            assert forall|s: int, i: int, j: int|
                live_posting(readers, f, s, i, j) && term_at(readers, f, s, i).term@ == t
                    implies #[trigger] emitted(readers, f, order, out@, s, i, j) by {
                let kk = choose|kk: int| 0 <= kk < m.len() && m[kk].0 as int == s && m[kk].1 as int == i;
                assert(live_posting(readers, f, m[kk].0 as int, m[kk].1 as int, j));
                assert(emitted(readers, f, order, out@, m[kk].0 as int, m[kk].1 as int, j));
            }
        }
        out
    }
}

/// An item of the sorted-mode buffer: new doc id, index in `matching`, posting index.
pub open spec fn item_ok(
    readers: Seq<SegmentReader>,
    field: int,
    order: Seq<(DocId, SegmentOrdinal)>,
    m: Seq<(usize, usize)>,
    it: (u32, u32, u32),
) -> bool {
    &&& it.1 < m.len()
    &&& live_posting(readers, field, m[it.1 as int].0 as int, m[it.1 as int].1 as int, it.2 as int)
    &&& it.0 < order.len()
    &&& order[it.0 as int] == (
        posting_at(readers, field, m[it.1 as int].0 as int, m[it.1 as int].1 as int, it.2 as int).doc,
        m[it.1 as int].0 as SegmentOrdinal,
    )
}

pub open spec fn in_buf(buf: Seq<(u32, u32, u32)>, k: int, j: int) -> bool {
    exists|a: int| 0 <= a < buf.len() && buf[a].1 as int == k && #[trigger] buf[a].2 as int == j
}

impl IndexMerger {
    /// The merged posting list of one term when the documents are re-sorted: the
    /// entries are gathered, ordered by new doc id, then written.
    fn write_term_postings_sorted(
        &self,
        field: usize,
        matching: &Vec<(usize, usize)>,
        doc_map: &Vec<Vec<Option<DocId>>>,
        mapping: &Vec<(DocId, SegmentOrdinal)>,
        term: Ghost<Seq<u8>>,
        delta_computer: &mut DeltaComputer,
    ) -> (r: Vec<DocPostings>)
        requires
            self.wf(),
            field < self.schema.fields@.len(),
            valid_mapping(self.readers@, mapping@),
            doc_map_ok(self.readers@, mapping@, map_view(doc_map@)),
            matching_ok(self.readers@, field as int, matching@, term@),
        ensures
            postings_ok(self.readers@, field as int, mapping@, term@, r@),
            r@.len() == match_freq(self.readers@, field as int, matching@),
    {
        broadcast use vstd::seq_lib::group_to_multiset_ensures;

        let ghost readers = self.readers@;
        let ghost f = field as int;
        let ghost order = mapping@;
        let ghost m = matching@;
        let ghost t = term@;
        let mut buf: Vec<(u32, u32, u32)> = Vec::new();
        let mut k: usize = 0;
        while k < matching.len()
            invariant
                self.wf(),
                readers == self.readers@,
                f == field,
                field < self.schema.fields@.len(),
                order == mapping@,
                m == matching@,
                t == term@,
                valid_mapping(readers, order),
                doc_map_ok(readers, order, map_view(doc_map@)),
                matching_ok(readers, f, m, t),
                k <= m.len(),
                buf@.len() == match_freq(readers, f, m.take(k as int)),
                forall|a: int| 0 <= a < buf@.len() ==> item_ok(readers, f, order, m, #[trigger] buf@[a]) && buf@[a].1 < k,
                forall|a: int, b: int| 0 <= a < b < buf@.len() ==> (#[trigger] buf@[a].1 < #[trigger] buf@[b].1
                    || (buf@[a].1 == buf@[b].1 && buf@[a].2 < buf@[b].2)),
                forall|kk: int, j: int| 0 <= kk < k && live_posting(readers, f, m[kk].0 as int, m[kk].1 as int, j)
                    ==> #[trigger] in_buf(buf@, kk, j),
            decreases m.len() - k,
        {
            let (s, i) = matching[k];
            let reader = &self.readers[s];
            assert(reader.wf(self.schema));
            assert(reader.fields@[f].wf(self.schema.fields@[f], reader.max_doc as int));
            let postings = &reader.fields[field].terms[i].postings;
            assert(postings_sorted(postings@, reader.max_doc as int));
            proof {
                lemma_postings_len(postings@, reader.max_doc as int);
            }
            let mut j: usize = 0;
            while j < postings.len()
                invariant
                    self.wf(),
                    readers == self.readers@,
                    f == field,
                    field < self.schema.fields@.len(),
                    order == mapping@,
                    m == matching@,
                    t == term@,
                    valid_mapping(readers, order),
                    doc_map_ok(readers, order, map_view(doc_map@)),
                    matching_ok(readers, f, m, t),
                    k < m.len(),
                    (s, i) == m[k as int],
                    s < readers.len(),
                    *reader == readers[s as int],
                    postings == term_at(readers, f, s as int, i as int).postings,
                    postings_sorted(postings@, reader.max_doc as int),
                    postings@.len() <= reader.max_doc,
                    j <= postings@.len(),
                    buf@.len() == match_freq(readers, f, m.take(k as int)) + alive_count(*reader, postings@.take(j as int)),
                    forall|a: int| 0 <= a < buf@.len() ==> item_ok(readers, f, order, m, #[trigger] buf@[a])
                        && (buf@[a].1 < k || (buf@[a].1 == k && buf@[a].2 < j)),
                    forall|a: int, b: int| 0 <= a < b < buf@.len() ==> (#[trigger] buf@[a].1 < #[trigger] buf@[b].1
                        || (buf@[a].1 == buf@[b].1 && buf@[a].2 < buf@[b].2)),
                    forall|kk: int, jj: int| 0 <= kk < k && live_posting(readers, f, m[kk].0 as int, m[kk].1 as int, jj)
                        ==> #[trigger] in_buf(buf@, kk, jj),
                    forall|jj: int| 0 <= jj < j && live_posting(readers, f, s as int, i as int, jj) ==> #[trigger] in_buf(
                        buf@,
                        k as int,
                        jj,
                    ),
                decreases postings@.len() - j,
            {
                let d = postings[j].doc;
                proof {
                    lemma_alive_count_step(*reader, postings@, j as int);
                }
                assert(map_view(doc_map@)[s as int] == doc_map@[s as int]@);
                let ghost old_buf = buf@;
                match doc_map[s][d as usize] {
                    Some(x) => {
                        assert(map_view(doc_map@)[s as int][d as int] == doc_map@[s as int]@[d as int]);
                        assert(m.len() <= readers.len()) by {
                            lemma_matching_len(readers, f, m, t);
                        }
                        buf.push((x, k as u32, j as u32));
                        proof {
                            assert(readers.len() <= self.max_doc);
                            assert((k as u32) as int == k);
                            assert((j as u32) as int == j);
                            assert(buf@[old_buf.len() as int] == (x, k as u32, j as u32));
                            assert(buf@[old_buf.len() as int].1 as int == k && buf@[old_buf.len() as int].2 as int == j);
                            assert(in_buf(buf@, k as int, j as int));
                            assert forall|a: int| 0 <= a < old_buf.len() implies #[trigger] buf@[a] == old_buf[a] by {}
                            assert forall|kk: int, jj: int| 0 <= kk < k && live_posting(readers, f, m[kk].0 as int, m[kk].1 as int, jj)
                                implies #[trigger] in_buf(buf@, kk, jj) by {
                                assert(in_buf(old_buf, kk, jj));
                                let a = choose|a: int| 0 <= a < old_buf.len() && old_buf[a].1 as int == kk && #[trigger] old_buf[a].2 as int == jj;
                                assert(buf@[a] == old_buf[a]);
                            }
                            assert forall|jj: int| 0 <= jj < j + 1 && live_posting(readers, f, s as int, i as int, jj)
                                implies #[trigger] in_buf(buf@, k as int, jj) by {
                                if jj < j {
                                    assert(in_buf(old_buf, k as int, jj));
                                    let a = choose|a: int| 0 <= a < old_buf.len() && old_buf[a].1 as int == k && #[trigger] old_buf[a].2 as int == jj;
                                    assert(buf@[a] == old_buf[a]);
                                }
                            }
                        }
                    },
                    None => {
                        assert(map_view(doc_map@)[s as int][d as int] == doc_map@[s as int]@[d as int]);
                        assert(!live_posting(readers, f, s as int, i as int, j as int));
                    },
                }
                j = j + 1;
            }
            proof {
                assert(postings@.take(postings@.len() as int) =~= postings@);
                lemma_match_freq_step(readers, f, m, k as int);
            }
            k = k + 1;
        }
        assert(m.take(m.len() as int) =~= m);
        let ghost unsorted = buf@;
        proof {
            assert forall|a: int, b: int| 0 <= a < unsorted.len() && 0 <= b < unsorted.len() && a != b implies unsorted[a] != unsorted[b] by {
                if a < b {
                    assert(unsorted[a].1 < unsorted[b].1 || (unsorted[a].1 == unsorted[b].1 && unsorted[a].2 < unsorted[b].2));
                } else {
                    assert(unsorted[b].1 < unsorted[a].1 || (unsorted[b].1 == unsorted[a].1 && unsorted[b].2 < unsorted[a].2));
                }
            }
            assert(unsorted.no_duplicates());
            unsorted.lemma_multiset_has_no_duplicates();
        }
        sort_triples(&mut buf);
        proof {
            buf@.lemma_multiset_has_no_duplicates_conv();
            assert forall|a: int| 0 <= a < buf@.len() implies item_ok(readers, f, order, m, #[trigger] buf@[a]) by {
                assert(buf@.to_multiset().count(buf@[a]) > 0);
                assert(unsorted.contains(buf@[a]));
            }
            assert forall|a: int, b: int| 0 <= a < b < buf@.len() implies buf@[a].0 < buf@[b].0 by {
                assert(triple_le(buf@[a], buf@[b]));
                assert(item_ok(readers, f, order, m, buf@[a]));
                assert(item_ok(readers, f, order, m, buf@[b]));
                if buf@[a].0 == buf@[b].0 {
                    lemma_same_item(readers, f, order, m, t, buf@[a], buf@[b]);
                }
            }
            assert forall|kk: int, j: int| 0 <= kk < m.len() && live_posting(readers, f, m[kk].0 as int, m[kk].1 as int, j)
                implies #[trigger] in_buf(buf@, kk, j) by {
                assert(in_buf(unsorted, kk, j));
                let a = choose|a: int| 0 <= a < unsorted.len() && unsorted[a].1 as int == kk && #[trigger] unsorted[a].2 as int == j;
                assert(unsorted.to_multiset().count(unsorted[a]) > 0);
                assert(buf@.contains(unsorted[a]));
                let b = choose|b: int| 0 <= b < buf@.len() && buf@[b] == unsorted[a];
                assert(buf@[b].2 as int == j);
            }
            assert(buf@.len() == unsorted.len()) by {
                assert(buf@.to_multiset().len() == unsorted.to_multiset().len());
            }
        }
        let mut out: Vec<DocPostings> = Vec::new();
        let mut a: usize = 0;
        while a < buf.len()
            invariant
                self.wf(),
                readers == self.readers@,
                f == field,
                field < self.schema.fields@.len(),
                order == mapping@,
                m == matching@,
                t == term@,
                matching_ok(readers, f, m, t),
                a <= buf@.len(),
                out@.len() == a,
                forall|x: int| 0 <= x < buf@.len() ==> item_ok(readers, f, order, m, #[trigger] buf@[x]),
                forall|x: int, y: int| 0 <= x < y < buf@.len() ==> buf@[x].0 < buf@[y].0,
                forall|x: int| 0 <= x < a ==> {
                    &&& (#[trigger] out@[x]).doc == buf@[x].0
                    &&& entry_matches(readers, f, order, m[buf@[x].1 as int].0 as int, m[buf@[x].1 as int].1 as int, buf@[x].2 as int, out@[x])
                },
            decreases buf@.len() - a,
        {
            let (x, kk, j) = buf[a];
            assert(item_ok(readers, f, order, m, buf@[a as int]));
            let (s, i) = matching[kk as usize];
            let entry = self.make_entry(field, s, i, j as usize, x, delta_computer);
            let ghost old_out = out@;
            out.push(entry);
            proof {
                assert forall|y: int| 0 <= y < a + 1 implies {
                    &&& (#[trigger] out@[y]).doc == buf@[y].0
                    &&& entry_matches(readers, f, order, m[buf@[y].1 as int].0 as int, m[buf@[y].1 as int].1 as int, buf@[y].2 as int, out@[y])
                } by {
                    if y < a {
                        assert(out@[y] == old_out[y]);
                    }
                }
            }
            a = a + 1;
        }
        proof {
            assert forall|x: int| 0 <= x < out@.len() implies #[trigger] has_source(readers, f, order, t, out@[x]) by {
                assert(item_ok(readers, f, order, m, buf@[x]));
                let kk = buf@[x].1 as int;
                assert(entry_matches(readers, f, order, m[kk].0 as int, m[kk].1 as int, buf@[x].2 as int, out@[x]));
            }
            assert forall|s: int, i: int, j: int|
                live_posting(readers, f, s, i, j) && term_at(readers, f, s, i).term@ == t
                    implies #[trigger] emitted(readers, f, order, out@, s, i, j) by {
                let kk = choose|kk: int| 0 <= kk < m.len() && m[kk].0 as int == s && m[kk].1 as int == i;
                assert(live_posting(readers, f, m[kk].0 as int, m[kk].1 as int, j));
                assert(in_buf(buf@, kk, j));
                let x = choose|x: int| 0 <= x < buf@.len() && buf@[x].1 as int == kk && #[trigger] buf@[x].2 as int == j;
                assert(entry_matches(readers, f, order, s, i, j, out@[x]));
            }
        }
        out
    }
}

/// Two buffer items with the same new doc id are the same item.
proof fn lemma_same_item(
    readers: Seq<SegmentReader>,
    field: int,
    order: Seq<(DocId, SegmentOrdinal)>,
    m: Seq<(usize, usize)>,
    t: Seq<u8>,
    a: (u32, u32, u32),
    b: (u32, u32, u32),
)
    requires
        matching_ok(readers, field, m, t),
        readers.len() <= u32::MAX,
        item_ok(readers, field, order, m, a),
        item_ok(readers, field, order, m, b),
        a.0 == b.0,
        forall|s: int, i: int| 0 <= s < readers.len() && 0 <= i < readers[s].fields@[field].terms@.len()
            ==> postings_sorted(#[trigger] term_at(readers, field, s, i).postings@, readers[s].max_doc as int),
    ensures
        a == b,
{
    let sa = m[a.1 as int].0;
    let sb = m[b.1 as int].0;
    assert(sa as SegmentOrdinal == sb as SegmentOrdinal);
    assert(sa == sb);
    if a.1 != b.1 {
        if a.1 < b.1 {
            assert(m[a.1 as int].0 < m[b.1 as int].0);
        } else {
            assert(m[b.1 as int].0 < m[a.1 as int].0);
        }
    }
    let p = term_at(readers, field, sa as int, m[a.1 as int].1 as int).postings@;
    assert(postings_sorted(p, readers[sa as int].max_doc as int));
    if a.2 != b.2 {
        if a.2 < b.2 {
            assert(p[a.2 as int].doc < p[b.2 as int].doc);
        } else {
            assert(p[b.2 as int].doc < p[a.2 as int].doc);
        }
    }
}

/// A matching has at most one entry per segment.
proof fn lemma_matching_len(readers: Seq<SegmentReader>, field: int, m: Seq<(usize, usize)>, t: Seq<u8>)
    requires
        matching_ok(readers, field, m, t),
    ensures
        m.len() <= readers.len(),
{
    lemma_ascending_index(m, readers.len() as int);
}

/// Strictly ascending segment ordinals below `n`: entry `k` is at least `k`.
pub proof fn lemma_ascending_index(m: Seq<(usize, usize)>, n: int)
    requires
        n >= 0,
        forall|k: int| 0 <= k < m.len() ==> (#[trigger] m[k]).0 < n,
        forall|a: int, b: int| 0 <= a < b < m.len() ==> (#[trigger] m[a]).0 < (#[trigger] m[b]).0,
    ensures
        m.len() <= n,
        forall|k: int| 0 <= k < m.len() ==> m[k].0 >= k,
    decreases m.len(),
{
    if m.len() > 0 {
        let q = m.drop_last();
        assert forall|a: int, b: int| 0 <= a < b < q.len() implies (#[trigger] q[a]).0 < (#[trigger] q[b]).0 by {
            assert(q[a] == m[a] && q[b] == m[b]);
        }
        lemma_ascending_index(q, n);
        assert forall|k: int| 0 <= k < m.len() implies m[k].0 >= k by {
            if k < m.len() - 1 {
                assert(m[k] == q[k]);
            } else if k > 0 {
                assert(m[k - 1] == q[k - 1]);
                assert(m[k - 1].0 < m[k].0);
            }
        }
        assert(m[m.len() - 1].0 >= m.len() - 1);
    }
}

/// A term of the merged dictionary, with its merged posting list.
#[derive(Clone, Debug)]
pub struct MergedTerm {
    pub term: Vec<u8>,
    pub doc_freq: u64,
    pub postings: Vec<DocPostings>,
}

/// The merged inverted index of one field.
#[derive(Clone, Debug)]
pub struct MergedFieldPostings {
    pub field: usize,
    pub total_num_tokens: u64,
    pub terms: Vec<MergedTerm>,
}

pub open spec fn terms_len(readers: Seq<SegmentReader>, field: int, s: int) -> int {
    readers[s].fields@[field].terms@.len() as int
}

/// Some merged term is `t`.
pub open spec fn has_term(out: Seq<MergedTerm>, t: Seq<u8>) -> bool {
    exists|k: int| 0 <= k < out.len() && (#[trigger] out[k]).term@ == t
}

/// The merged dictionary of a field: ascending terms, each with its merged posting
/// list, and every term that a live document holds.
pub open spec fn field_terms_ok(
    readers: Seq<SegmentReader>,
    field: int,
    order: Seq<(DocId, SegmentOrdinal)>,
    out: Seq<MergedTerm>,
) -> bool {
    &&& forall|a: int, b: int| 0 <= a < b < out.len() ==> lex_lt((#[trigger] out[a]).term@, (#[trigger] out[b]).term@)
    &&& forall|k: int| 0 <= k < out.len() ==> {
        &&& (#[trigger] out[k]).doc_freq == out[k].postings@.len()
        &&& out[k].doc_freq > 0
        &&& postings_ok(readers, field, order, out[k].term@, out[k].postings@)
    }
    &&& forall|s: int, i: int|
        0 <= s < readers.len() && 0 <= i < terms_len(readers, field, s) && alive_count(
            readers[s],
            term_at(readers, field, s, i).postings@,
        ) > 0 ==> #[trigger] has_term(out, term_at(readers, field, s, i).term@)
}

/// The term-ordinal mapping of a facet field: each old term ordinal goes to the
/// ordinal of the same term in the merged dictionary, or to 0 where there is none.
pub open spec fn tom_ok(readers: Seq<SegmentReader>, field: int, out: Seq<MergedTerm>, t: Seq<Seq<u64>>) -> bool {
    &&& t.len() == readers.len()
    &&& forall|s: int| 0 <= s < readers.len() ==> (#[trigger] t[s]).len() == terms_len(readers, field, s)
    &&& forall|s: int, i: int| 0 <= s < readers.len() && 0 <= i < terms_len(readers, field, s) ==> {
        let term = term_at(readers, field, s, i).term@;
        if has_term(out, term) {
            (#[trigger] t[s][i]) < out.len() && out[t[s][i] as int].term@ == term
        } else {
            t[s][i] == 0
        }
    }
}

/// At most every posting is live.
pub proof fn lemma_alive_count_le(r: SegmentReader, p: Seq<Posting>)
    ensures
        alive_count(r, p) <= p.len(),
    decreases p.len(),
{
    if p.len() > 0 {
        lemma_alive_count_le(r, p.drop_last());
    }
}

/// A live posting makes the live count of its list positive.
pub proof fn lemma_alive_count_pos(r: SegmentReader, p: Seq<Posting>, j: int)
    requires
        0 <= j < p.len(),
        r.spec_is_alive(p[j].doc as int),
    ensures
        alive_count(r, p) > 0,
    decreases p.len(),
{
    if j < p.len() - 1 {
        assert(p.drop_last()[j] == p[j]);
        lemma_alive_count_pos(r, p.drop_last(), j);
    }
}

impl IndexMerger {
    /// Merges the inverted index of one field: the term dictionaries in byte order,
    /// each surviving term with its posting list under the new doc ids. For a
    /// hierarchical facet field, also the old-to-new term-ordinal mapping.
    pub fn write_postings_for_field(
        &self,
        field: usize,
        doc_id_mapping: &Option<Vec<(DocId, SegmentOrdinal)>>,
    ) -> (r: (MergedFieldPostings, Option<TermOrdinalMapping>))
        requires
            self.wf(),
            field < self.schema.fields@.len(),
            valid_mapping_opt(self.readers@, *doc_id_mapping),
        ensures
            r.0.field == field,
            r.0.total_num_tokens == sat(total_tokens(self.readers@, field as int, self.readers@.len() as int) as int),
            field_terms_ok(self.readers@, field as int, merge_order(self.readers@, *doc_id_mapping), r.0.terms@),
            r.1.is_some() == (self.schema.fields@[field as int].kind == FieldKind::HierarchicalFacet),
            r.1 matches Some(t) ==> tom_ok(self.readers@, field as int, r.0.terms@, t@),
    {
        let ghost readers = self.readers@;
        let ghost f = field as int;
        let ghost order = merge_order(readers, *doc_id_mapping);
        let mut delta_computer = DeltaComputer::new();
        let mut max_term_ords: Vec<u64> = Vec::new();
        let mut cursors: Vec<usize> = Vec::new();
        let mut s: usize = 0;
        while s < self.readers.len()
            invariant
                readers == self.readers@,
                self.wf(),
                field < self.schema.fields@.len(),
                s <= readers.len(),
                max_term_ords@.len() == s,
                cursors@.len() == s,
                forall|x: int| 0 <= x < s ==> #[trigger] max_term_ords@[x] == terms_len(readers, f, x),
                forall|x: int| 0 <= x < s ==> #[trigger] max_term_ords@[x] <= usize::MAX,
                forall|x: int| 0 <= x < s ==> #[trigger] cursors@[x] == 0,
                f == field,
            decreases readers.len() - s,
        {
            assert(readers[s as int].wf(self.schema));
            max_term_ords.push(self.readers[s].fields[field].terms.len() as u64);
            cursors.push(0);
            s = s + 1;
        }
        let is_facet = match self.schema.fields[field].kind {
            FieldKind::HierarchicalFacet => true,
            _ => false,
        };
        let mut term_ord_mapping_opt = if is_facet {
            Some(TermOrdinalMapping::new(max_term_ords))
        } else {
            None
        };
        let doc_map = self.merged_doc_id_map(doc_id_mapping);
        proof {
            assert forall|x: int| 0 <= x < readers.len() implies norms_ok(#[trigger] readers[x], f) by {
                assert(readers[x].wf(self.schema));
                assert(readers[x].fields@[f].wf(self.schema.fields@[f], readers[x].max_doc as int));
            }
            assert(readers.len() <= self.max_doc);
        }
        let total_num_tokens = compute_total_num_tokens(&self.readers, field);
        let mut terms: Vec<MergedTerm> = Vec::new();
        let ghost mut started = false;
        let ghost mut last: Seq<u8> = seq![];
        let ghost lens = Seq::new(readers.len(), |x: int| terms_len(readers, f, x));
        loop
            invariant
                readers == self.readers@,
                self.wf(),
                f == field,
                field < self.schema.fields@.len(),
                order == merge_order(readers, *doc_id_mapping),
                valid_mapping_opt(readers, *doc_id_mapping),
                doc_map_ok(readers, order, map_view(doc_map@)),
                doc_id_mapping.is_none() ==> forall|s: int, d: int|
                    0 <= s < readers.len() && 0 <= d < readers[s].max_doc && readers[s].spec_is_alive(d)
                        ==> (#[trigger] map_view(doc_map@)[s][d]) == Some(stack_id(readers, s, d) as DocId),
                lens == Seq::new(readers.len(), |x: int| terms_len(readers, f, x)),
                merge_state_ok(readers, f, cursors@, started, last, terms@),
                taken_terms_ok(readers, f, cursors@, terms@),
                forall|a: int, b: int| 0 <= a < b < terms@.len() ==> lex_lt((#[trigger] terms@[a]).term@, (#[trigger] terms@[b]).term@),
                forall|k: int| 0 <= k < terms@.len() ==> {
                    &&& (#[trigger] terms@[k]).doc_freq == terms@[k].postings@.len()
                    &&& terms@[k].doc_freq > 0
                    &&& postings_ok(readers, f, order, terms@[k].term@, terms@[k].postings@)
                },
                term_ord_mapping_opt.is_some() == is_facet,
                is_facet == (self.schema.fields@[f].kind == FieldKind::HierarchicalFacet),
                term_ord_mapping_opt matches Some(t) ==> tom_ok(readers, f, terms@, t@),
                total_num_tokens == sat(total_tokens(readers, f, readers.len() as int) as int),
            ensures
                forall|s: int, i: int|
                    0 <= s < readers.len() && 0 <= i < terms_len(readers, f, s) && alive_count(
                        readers[s],
                        term_at(readers, f, s, i).postings@,
                    ) > 0 ==> #[trigger] has_term(terms@, term_at(readers, f, s, i).term@),
            decreases remaining(lens, cursors@, readers.len() as int),
        {
            let best = match self.find_min_term(field, &cursors) {
                Some(b) => b,
                None => {
                    proof {
                        assert forall|s: int, i: int|
                            0 <= s < readers.len() && 0 <= i < terms_len(readers, f, s) && alive_count(
                                readers[s],
                                term_at(readers, f, s, i).postings@,
                            ) > 0 implies #[trigger] has_term(terms@, term_at(readers, f, s, i).term@) by {
                            assert(cursors@[s] == terms_len(readers, f, s));
                        }
                    }
                    break;
                },
            };
            let matching = self.matching_segments(field, &cursors, best);
            assert(readers[best as int].wf(self.schema));
            let mut term: Vec<u8> = Vec::new();
            append_bytes(&mut term, &self.readers[best].fields[field].terms[cursors[best]].term);
            let ghost t = term@;
            proof {
                assert(term@ =~= cur_term(readers, f, cursors@, best as int));
                lemma_matching_facts(readers, f, self.schema, cursors@, started, last, terms@, best as int, matching@);
            }
            let total_doc_freq = self.term_doc_freq(field, &matching);
            let ghost old_cursors = cursors@;
            let ghost old_terms = terms@;
            if total_doc_freq > 0 {
                let to_term_ord = terms.len() as u64;
                let postings = match doc_id_mapping {
                    Some(mapping) => self.write_term_postings_sorted(
                        field,
                        &matching,
                        &doc_map,
                        mapping,
                        Ghost(t),
                        &mut delta_computer,
                    ),
                    None => self.write_term_postings_stacked(field, &matching, &doc_map, Ghost(t), &mut delta_computer),
                };
                if let Some(tom) = &mut term_ord_mapping_opt {
                    self.register_matching(field, tom, &matching, to_term_ord);
                }
                terms.push(MergedTerm { term, doc_freq: total_doc_freq, postings });
                proof {
                    assert(terms@.drop_last() =~= old_terms);
                }
                let ghost new_terms = terms@;
            }
            self.advance_cursors(field, &mut cursors, &matching);
            proof {
                lemma_merge_step(readers, f, self.schema, old_cursors, cursors@, started, last, old_terms, terms@, best as int, matching@);
                let k = choose|k: int| 0 <= k < matching@.len() && matching@[k].0 as int == best;
                assert(in_matching(matching@, best as int));
                assert forall|x: int| 0 <= x < readers.len() implies old_cursors[x] <= #[trigger] cursors@[x] by {}
                lemma_remaining_decreases(lens, old_cursors, cursors@, readers.len() as int, best as int);
                lemma_remaining_nonneg(lens, cursors@, readers.len() as int);
                assert forall|a: int, b: int| 0 <= a < b < terms@.len() implies lex_lt((#[trigger] terms@[a]).term@, (#[trigger] terms@[b]).term@) by {
                    if b == old_terms.len() {
                        assert(terms@[a] == old_terms[a]);
                        if a < old_terms.len() - 1 {
                            assert(lex_lt(old_terms[a].term@, old_terms[old_terms.len() - 1].term@));
                            lemma_lex_transitive(old_terms[a].term@, old_terms.last().term@, t);
                        }
                    } else {
                        assert(terms@[a] == old_terms[a] && terms@[b] == old_terms[b]);
                    }
                }
                started = true;
                last = t;
            }
        }
        assert(forall|k: int| 0 <= k < terms@.len() ==> {
            &&& (#[trigger] terms@[k]).doc_freq == terms@[k].postings@.len()
            &&& terms@[k].doc_freq > 0
            &&& postings_ok(readers, f, order, terms@[k].term@, terms@[k].postings@)
        });
        assert(forall|s: int, i: int|
            0 <= s < readers.len() && 0 <= i < terms_len(readers, f, s) && alive_count(
                readers[s],
                term_at(readers, f, s, i).postings@,
            ) > 0 ==> #[trigger] has_term(terms@, term_at(readers, f, s, i).term@));
        assert(field_terms_ok(readers, f, order, terms@));
        (MergedFieldPostings { field, total_num_tokens, terms }, term_ord_mapping_opt)
    }
}

/// The indexed fields among the first `k` of the schema, in order.
pub open spec fn indexed_field_ids(fields: Seq<crate::schema::FieldEntry>, k: int) -> Seq<usize>
    decreases k,
{
    if k <= 0 {
        seq![]
    } else if fields[k - 1].indexed {
        indexed_field_ids(fields, k - 1).push((k - 1) as usize)
    } else {
        indexed_field_ids(fields, k - 1)
    }
}

/// The mapping, if any, is that of the merged field `f` of `out`.
pub open spec fn tom_in(
    readers: Seq<SegmentReader>,
    out: Seq<MergedFieldPostings>,
    f: int,
    t: Option<TermOrdinalMapping>,
) -> bool {
    t matches Some(t) ==> exists|k: int| 0 <= k < out.len() && (#[trigger] out[k]).field == f && tom_ok(readers, f, out[k].terms@, t@)
}

impl IndexMerger {
    /// Merges the inverted index of every indexed field, in schema order. Returns,
    /// for each field of the schema, the term-ordinal mapping of a facet field.
    pub fn write_postings(
        &self,
        doc_id_mapping: &Option<Vec<(DocId, SegmentOrdinal)>>,
    ) -> (r: (Vec<MergedFieldPostings>, Vec<Option<TermOrdinalMapping>>))
        requires
            self.wf(),
            valid_mapping_opt(self.readers@, *doc_id_mapping),
        ensures
            r.0@.map_values(|p: MergedFieldPostings| p.field) == indexed_field_ids(
                self.schema.fields@,
                self.schema.fields@.len() as int,
            ),
            forall|k: int| 0 <= k < r.0@.len() ==> {
                &&& (#[trigger] r.0@[k]).field < self.schema.fields@.len()
                &&& r.0@[k].total_num_tokens == sat(total_tokens(self.readers@, r.0@[k].field as int, self.readers@.len() as int) as int)
                &&& field_terms_ok(self.readers@, r.0@[k].field as int, merge_order(self.readers@, *doc_id_mapping), r.0@[k].terms@)
            },
            r.1@.len() == self.schema.fields@.len(),
            forall|f: int| 0 <= f < r.1@.len() ==> (#[trigger] r.1@[f]).is_some() == (self.schema.fields@[f].indexed
                && self.schema.fields@[f].kind == FieldKind::HierarchicalFacet),
            forall|f: int| 0 <= f < r.1@.len() ==> tom_in(self.readers@, r.0@, f, #[trigger] r.1@[f]),
    {
        let mut postings: Vec<MergedFieldPostings> = Vec::new();
        let mut toms: Vec<Option<TermOrdinalMapping>> = Vec::new();
        let mut field: usize = 0;
        while field < self.schema.fields.len()
            invariant
                self.wf(),
                valid_mapping_opt(self.readers@, *doc_id_mapping),
                field <= self.schema.fields@.len(),
                postings@.map_values(|p: MergedFieldPostings| p.field) == indexed_field_ids(self.schema.fields@, field as int),
                forall|k: int| 0 <= k < postings@.len() ==> {
                    &&& (#[trigger] postings@[k]).field < field
                    &&& postings@[k].total_num_tokens == sat(total_tokens(self.readers@, postings@[k].field as int, self.readers@.len() as int) as int)
                    &&& field_terms_ok(self.readers@, postings@[k].field as int, merge_order(self.readers@, *doc_id_mapping), postings@[k].terms@)
                },
                toms@.len() == field,
                forall|f: int| 0 <= f < toms@.len() ==> (#[trigger] toms@[f]).is_some() == (self.schema.fields@[f].indexed
                    && self.schema.fields@[f].kind == FieldKind::HierarchicalFacet),
                forall|f: int| 0 <= f < toms@.len() ==> tom_in(self.readers@, postings@, f, #[trigger] toms@[f]),
            decreases self.schema.fields@.len() - field,
        {
            let ghost old_postings = postings@;
            let ghost old_toms = toms@;
            if self.schema.fields[field].indexed {
                let (field_postings, tom) = self.write_postings_for_field(field, doc_id_mapping);
                postings.push(field_postings);
                toms.push(tom);
                proof {
                    assert(postings@.map_values(|p: MergedFieldPostings| p.field) =~= old_postings.map_values(
                        |p: MergedFieldPostings| p.field,
                    ).push(field));
                    assert forall|f: int| 0 <= f < toms@.len() implies tom_in(self.readers@, postings@, f, #[trigger] toms@[f]) by {
                        if f < field {
                            assert(toms@[f] == old_toms[f]);
                            if toms@[f].is_some() {
                                let k = choose|k: int| 0 <= k < old_postings.len() && old_postings[k].field == f && tom_ok(self.readers@, f, old_postings[k].terms@, toms@[f].unwrap()@);
                                assert(postings@[k] == old_postings[k]);
                            }
                        } else {
                            assert(postings@[old_postings.len() as int].field == f);
                        }
                    }
                    assert forall|k: int| 0 <= k < postings@.len() implies {
                        &&& (#[trigger] postings@[k]).field < field + 1
                        &&& postings@[k].total_num_tokens == sat(total_tokens(self.readers@, postings@[k].field as int, self.readers@.len() as int) as int)
                        &&& field_terms_ok(self.readers@, postings@[k].field as int, merge_order(self.readers@, *doc_id_mapping), postings@[k].terms@)
                    } by {
                        if k < old_postings.len() {
                            assert(postings@[k] == old_postings[k]);
                        }
                    }
                }
            } else {
                toms.push(None);
                proof {
                    assert forall|f: int| 0 <= f < toms@.len() implies tom_in(self.readers@, postings@, f, #[trigger] toms@[f]) by {
                        if f < field {
                            assert(toms@[f] == old_toms[f]);
                        }
                    }
                }
            }
            field = field + 1;
        }
        (postings, toms)
    }
}

/// Strictly ascending doc ids below `max_doc`: posting `i` is at least `i`, and there are at most `max_doc`.
pub proof fn lemma_postings_len(p: Seq<Posting>, max_doc: int)
    requires
        max_doc >= 0,
        forall|i: int, j: int| 0 <= i < j < p.len() ==> p[i].doc < p[j].doc,
        forall|i: int| 0 <= i < p.len() ==> p[i].doc < max_doc,
    ensures
        p.len() <= max_doc,
        forall|i: int| 0 <= i < p.len() ==> p[i].doc >= i,
    decreases p.len(),
{
    if p.len() > 0 {
        let q = p.drop_last();
        lemma_postings_len(q, max_doc);
        assert forall|i: int| 0 <= i < p.len() implies p[i].doc >= i by {
            if i < p.len() - 1 {
                assert(p[i] == q[i]);
            } else if i > 0 {
                assert(p[i - 1] == q[i - 1]);
                assert(p[i - 1].doc < p[i].doc);
            }
        }
        assert(p[p.len() - 1].doc >= p.len() - 1);
    }
}

} // verus!
