use vstd::prelude::*;
use crate::merger::{readers_wf, IndexMerger};
use crate::postings::{
    alive_count, has_term, lemma_alive_count_le, lemma_ascending_index, lemma_alive_count_step, lemma_match_freq_step, lemma_postings_len,
    match_freq, matching_ok, term_at, terms_len, MergedTerm,
};
use crate::schema::Schema;
use crate::segment::{
    SegmentReader, bytes_eq, bytes_lt, lemma_lex_irreflexive, lemma_lex_total, lemma_lex_transitive, lex_lt, postings_sorted,
};
use crate::term_ordinals::TermOrdinalMapping;

verus! {

/// The cursors that are left to walk, summed.
pub open spec fn remaining(lens: Seq<int>, c: Seq<usize>, n: int) -> int
    decreases n,
{
    if n <= 0 {
        0
    } else {
        remaining(lens, c, n - 1) + (lens[n - 1] - c[n - 1])
    }
}

/// Advancing a cursor shrinks what is left to merge.
pub proof fn lemma_remaining_decreases(lens: Seq<int>, c: Seq<usize>, c2: Seq<usize>, n: int, b: int)
    requires
        0 <= n <= c.len(),
        c.len() == c2.len(),
        forall|s: int| 0 <= s < n ==> c[s] <= #[trigger] c2[s],
        0 <= b < n,
        c[b] < c2[b],
    ensures
        remaining(lens, c2, n) < remaining(lens, c, n),
    decreases n,
{
    if b < n - 1 {
        lemma_remaining_decreases(lens, c, c2, n - 1, b);
    } else {
        lemma_remaining_le(lens, c, c2, n - 1);
    }
}

/// Cursors that only move forward leave no more to merge.
pub proof fn lemma_remaining_le(lens: Seq<int>, c: Seq<usize>, c2: Seq<usize>, n: int)
    requires
        0 <= n <= c.len(),
        c.len() == c2.len(),
        forall|s: int| 0 <= s < n ==> c[s] <= #[trigger] c2[s],
    ensures
        remaining(lens, c2, n) <= remaining(lens, c, n),
    decreases n,
{
    if n > 0 {
        lemma_remaining_le(lens, c, c2, n - 1);
    }
}

/// What is left to merge is never negative.
pub proof fn lemma_remaining_nonneg(lens: Seq<int>, c: Seq<usize>, n: int)
    requires
        0 <= n <= c.len(),
        n <= lens.len(),
        forall|s: int| 0 <= s < n ==> c[s] <= #[trigger] lens[s],
    ensures
        remaining(lens, c, n) >= 0,
    decreases n,
{
    if n > 0 {
        lemma_remaining_nonneg(lens, c, n - 1);
    }
}

pub open spec fn cursors_ok(readers: Seq<SegmentReader>, field: int, c: Seq<usize>) -> bool {
    &&& c.len() == readers.len()
    &&& forall|s: int| 0 <= s < c.len() ==> #[trigger] c[s] <= terms_len(readers, field, s)
}

pub open spec fn cur_term(readers: Seq<SegmentReader>, field: int, c: Seq<usize>, s: int) -> Seq<u8> {
    term_at(readers, field, s, c[s] as int).term@
}

impl IndexMerger {
    /// The segment whose current term is the smallest, if any cursor is left.
    pub(crate) fn find_min_term(&self, field: usize, cursors: &Vec<usize>) -> (r: Option<usize>)
        requires
            self.wf(),
            field < self.schema.fields@.len(),
            cursors_ok(self.readers@, field as int, cursors@),
        ensures
            match r {
                None => forall|s: int| 0 <= s < cursors@.len() ==> #[trigger] cursors@[s] == terms_len(self.readers@, field as int, s),
                Some(b) => {
                    &&& b < cursors@.len()
                    &&& cursors@[b as int] < terms_len(self.readers@, field as int, b as int)
                    &&& forall|s: int| 0 <= s < cursors@.len() && #[trigger] cursors@[s] < terms_len(self.readers@, field as int, s)
                        ==> cur_term(self.readers@, field as int, cursors@, s) == cur_term(self.readers@, field as int, cursors@, b as int)
                        || lex_lt(cur_term(self.readers@, field as int, cursors@, b as int), cur_term(self.readers@, field as int, cursors@, s))
                },
            },
    {
        let ghost readers = self.readers@;
        let ghost f = field as int;
        let mut best: Option<usize> = None;
        let mut s: usize = 0;
        while s < cursors.len()
            invariant
                readers == self.readers@,
                f == field,
                self.wf(),
                field < self.schema.fields@.len(),
                cursors_ok(readers, f, cursors@),
                s <= cursors@.len(),
                match best {
                    None => forall|x: int| 0 <= x < s ==> #[trigger] cursors@[x] == terms_len(readers, f, x),
                    Some(b) => {
                        &&& b < s
                        &&& cursors@[b as int] < terms_len(readers, f, b as int)
                        &&& forall|x: int| 0 <= x < s && #[trigger] cursors@[x] < terms_len(readers, f, x)
                            ==> cur_term(readers, f, cursors@, x) == cur_term(readers, f, cursors@, b as int)
                            || lex_lt(cur_term(readers, f, cursors@, b as int), cur_term(readers, f, cursors@, x))
                    },
                },
            decreases cursors@.len() - s,
        {
            let terms = &self.readers[s].fields[field].terms;
            assert(self.readers@[s as int].wf(self.schema));
            if cursors[s] < terms.len() {
                match best {
                    None => {
                        best = Some(s);
                    },
                    Some(b) => {
                        let bterms = &self.readers[b].fields[field].terms;
                        assert(self.readers@[b as int].wf(self.schema));
                        if bytes_lt(&terms[cursors[s]].term, &bterms[cursors[b]].term) {
                            proof {
                                assert forall|x: int| 0 <= x < s + 1 && #[trigger] cursors@[x] < terms_len(readers, f, x)
                                    implies cur_term(readers, f, cursors@, x) == cur_term(readers, f, cursors@, s as int)
                                    || lex_lt(cur_term(readers, f, cursors@, s as int), cur_term(readers, f, cursors@, x)) by {
                                    if x < s && cur_term(readers, f, cursors@, x) != cur_term(readers, f, cursors@, b as int) {
                                        lemma_lex_transitive(cur_term(readers, f, cursors@, s as int), cur_term(readers, f, cursors@, b as int), cur_term(readers, f, cursors@, x));
                                    }
                                }
                            }
                            best = Some(s);
                        } else {
                            proof {
                                lemma_lex_total(cur_term(readers, f, cursors@, s as int), cur_term(readers, f, cursors@, b as int));
                            }
                        }
                    },
                }
            }
            s = s + 1;
        }
        best
    }

    /// The segments whose current term is that of segment `best`, each with the
    /// position of its cursor.
    pub(crate) fn matching_segments(&self, field: usize, cursors: &Vec<usize>, best: usize) -> (r: Vec<(usize, usize)>)
        requires
            self.wf(),
            field < self.schema.fields@.len(),
            cursors_ok(self.readers@, field as int, cursors@),
            best < cursors@.len(),
            cursors@[best as int] < terms_len(self.readers@, field as int, best as int),
        ensures
            forall|k: int| 0 <= k < r@.len() ==> {
                &&& (#[trigger] r@[k]).0 < cursors@.len()
                &&& r@[k].1 == cursors@[r@[k].0 as int]
                &&& r@[k].1 < terms_len(self.readers@, field as int, r@[k].0 as int)
                &&& cur_term(self.readers@, field as int, cursors@, r@[k].0 as int) == cur_term(self.readers@, field as int, cursors@, best as int)
            },
            forall|a: int, b: int| 0 <= a < b < r@.len() ==> (#[trigger] r@[a]).0 < (#[trigger] r@[b]).0,
            forall|s: int| 0 <= s < cursors@.len() && #[trigger] cursors@[s] < terms_len(self.readers@, field as int, s)
                && cur_term(self.readers@, field as int, cursors@, s) == cur_term(self.readers@, field as int, cursors@, best as int)
                ==> exists|k: int| 0 <= k < r@.len() && r@[k].0 as int == s,
            exists|k: int| 0 <= k < r@.len() && r@[k].0 as int == best,
    {
        let ghost readers = self.readers@;
        let ghost f = field as int;
        assert(readers[best as int].wf(self.schema));
        let bterm = &self.readers[best].fields[field].terms[cursors[best]].term;
        let mut out: Vec<(usize, usize)> = Vec::new();
        let mut s: usize = 0;
        while s < cursors.len()
            invariant
                readers == self.readers@,
                f == field,
                self.wf(),
                field < self.schema.fields@.len(),
                cursors_ok(readers, f, cursors@),
                best < cursors@.len(),
                cursors@[best as int] < terms_len(readers, f, best as int),
                bterm@ == cur_term(readers, f, cursors@, best as int),
                s <= cursors@.len(),
                forall|k: int| 0 <= k < out@.len() ==> {
                    &&& (#[trigger] out@[k]).0 < s
                    &&& out@[k].1 == cursors@[out@[k].0 as int]
                    &&& out@[k].1 < terms_len(readers, f, out@[k].0 as int)
                    &&& cur_term(readers, f, cursors@, out@[k].0 as int) == cur_term(readers, f, cursors@, best as int)
                },
                forall|a: int, b: int| 0 <= a < b < out@.len() ==> (#[trigger] out@[a]).0 < (#[trigger] out@[b]).0,
                forall|x: int| 0 <= x < s && #[trigger] cursors@[x] < terms_len(readers, f, x)
                    && cur_term(readers, f, cursors@, x) == cur_term(readers, f, cursors@, best as int)
                    ==> exists|k: int| 0 <= k < out@.len() && out@[k].0 as int == x,
            decreases cursors@.len() - s,
        {
            assert(readers[s as int].wf(self.schema));
            let terms = &self.readers[s].fields[field].terms;
            if cursors[s] < terms.len() && bytes_eq(&terms[cursors[s]].term, bterm) {
                let ghost old_out = out@;
                out.push((s, cursors[s]));
                proof {
                    assert(out@[old_out.len() as int].0 == s);
                    assert forall|x: int| 0 <= x < s + 1 && #[trigger] cursors@[x] < terms_len(readers, f, x)
                        && cur_term(readers, f, cursors@, x) == cur_term(readers, f, cursors@, best as int)
                        implies exists|k: int| 0 <= k < out@.len() && out@[k].0 as int == x by {
                        if x < s {
                            let k = choose|k: int| 0 <= k < old_out.len() && old_out[k].0 as int == x;
                            assert(out@[k] == old_out[k]);
                        }
                    }
                }
            }
            s = s + 1;
        }
        out
    }

    /// The number of live postings of the term over the segments of `matching`.
    pub(crate) fn term_doc_freq(&self, field: usize, matching: &Vec<(usize, usize)>) -> (r: u64)
        requires
            self.wf(),
            field < self.schema.fields@.len(),
            matching@.len() <= self.readers@.len(),
            forall|k: int| 0 <= k < matching@.len() ==> (#[trigger] matching@[k]).0 < self.readers@.len()
                && matching@[k].1 < terms_len(self.readers@, field as int, matching@[k].0 as int),
        ensures
            r == match_freq(self.readers@, field as int, matching@),
    {
        let ghost readers = self.readers@;
        let ghost f = field as int;
        let ghost m = matching@;
        let mut total: u64 = 0;
        let mut k: usize = 0;
        while k < matching.len()
            invariant
                readers == self.readers@,
                f == field,
                m == matching@,
                self.wf(),
                field < self.schema.fields@.len(),
                m.len() <= readers.len(),
                forall|kk: int| 0 <= kk < m.len() ==> (#[trigger] m[kk]).0 < readers.len()
                    && m[kk].1 < terms_len(readers, f, m[kk].0 as int),
                k <= m.len(),
                total == match_freq(readers, f, m.take(k as int)),
                total <= k * 0x1_0000_0000,
            decreases m.len() - k,
        {
            let (s, i) = matching[k];
            let reader = &self.readers[s];
            assert(reader.wf(self.schema));
            assert(reader.fields@[f].wf(self.schema.fields@[f], reader.max_doc as int));
            let postings = &reader.fields[field].terms[i].postings;
            assert(postings_sorted(postings@, reader.max_doc as int));
            proof {
                lemma_postings_len(postings@, reader.max_doc as int);
                lemma_alive_count_le(*reader, postings@);
                lemma_match_freq_step(readers, f, m, k as int);
                assert(readers.len() <= self.max_doc);
            }
            let mut n: u64 = 0;
            let mut j: usize = 0;
            while j < postings.len()
                invariant
                    j <= postings@.len(),
                    postings@.len() <= reader.max_doc,
                    n == alive_count(*reader, postings@.take(j as int)),
                    n <= j,
                    match reader.alive_bitset {
                        Some(b) => b@.len() == reader.max_doc,
                        None => true,
                    },
                    forall|x: int| 0 <= x < postings@.len() ==> postings@[x].doc < reader.max_doc,
                decreases postings@.len() - j,
            {
                proof {
                    lemma_alive_count_step(*reader, postings@, j as int);
                }
                if reader.is_alive(postings[j].doc) {
                    n = n + 1;
                }
                j = j + 1;
            }
            assert(postings@.take(postings@.len() as int) =~= postings@);
            total = total + n;
            k = k + 1;
        }
        assert(m.take(m.len() as int) =~= m);
        total
    }
}

/// The merge of the term dictionaries so far: `last` is the last term taken, the
/// terms before each cursor are at most `last`, those from the cursor on are above it.
pub open spec fn merge_state_ok(
    readers: Seq<SegmentReader>,
    field: int,
    c: Seq<usize>,
    started: bool,
    last: Seq<u8>,
    out: Seq<MergedTerm>,
) -> bool {
    &&& cursors_ok(readers, field, c)
    &&& !started ==> out.len() == 0 && forall|s: int| 0 <= s < c.len() ==> #[trigger] c[s] == 0
    &&& started ==> forall|s: int, i: int|
        0 <= s < c.len() && c[s] <= i < terms_len(readers, field, s) ==> lex_lt(last, #[trigger] term_at(readers, field, s, i).term@)
    &&& started ==> forall|s: int, i: int|
        0 <= s < c.len() && 0 <= i < c[s] ==> #[trigger] term_at(readers, field, s, i).term@ == last || lex_lt(
            term_at(readers, field, s, i).term@,
            last,
        )
    &&& out.len() > 0 ==> out.last().term@ == last || lex_lt(out.last().term@, last)
}

/// The merged dictionary holds every term of a live document that has been taken.
pub open spec fn taken_terms_ok(readers: Seq<SegmentReader>, field: int, c: Seq<usize>, out: Seq<MergedTerm>) -> bool {
    forall|s: int, i: int|
        0 <= s < c.len() && 0 <= i < c[s] && alive_count(readers[s], term_at(readers, field, s, i).postings@) > 0
            ==> #[trigger] has_term(out, term_at(readers, field, s, i).term@)
}

/// `m` holds segment `s`.
pub open spec fn in_matching(m: Seq<(usize, usize)>, s: int) -> bool {
    exists|k: int| 0 <= k < m.len() && (#[trigger] m[k]).0 as int == s
}

impl IndexMerger {
    /// Moves the cursor of each segment of `matching` past the current term.
    pub(crate) fn advance_cursors(&self, field: usize, cursors: &mut Vec<usize>, matching: &Vec<(usize, usize)>)
        requires
            cursors_ok(self.readers@, field as int, old(cursors)@),
            forall|k: int| 0 <= k < matching@.len() ==> {
                &&& (#[trigger] matching@[k]).0 < old(cursors)@.len()
                &&& matching@[k].1 == old(cursors)@[matching@[k].0 as int]
                &&& matching@[k].1 < terms_len(self.readers@, field as int, matching@[k].0 as int)
            },
            forall|a: int, b: int| 0 <= a < b < matching@.len() ==> (#[trigger] matching@[a]).0 < (#[trigger] matching@[b]).0,
        ensures
            final(cursors)@.len() == old(cursors)@.len(),
            forall|s: int| 0 <= s < old(cursors)@.len() ==> #[trigger] final(cursors)@[s] == if in_matching(matching@, s) {
                old(cursors)@[s] + 1
            } else {
                old(cursors)@[s] as int
            },
    {
        let ghost start = cursors@;
        let mut k: usize = 0;
        while k < matching.len()
            invariant
                cursors_ok(self.readers@, field as int, start),
                forall|k: int| 0 <= k < matching@.len() ==> {
                    &&& (#[trigger] matching@[k]).0 < start.len()
                    &&& matching@[k].1 == start[matching@[k].0 as int]
                    &&& matching@[k].1 < terms_len(self.readers@, field as int, matching@[k].0 as int)
                },
                forall|a: int, b: int| 0 <= a < b < matching@.len() ==> (#[trigger] matching@[a]).0 < (#[trigger] matching@[b]).0,
                k <= matching@.len(),
                cursors@.len() == start.len(),
                forall|s: int| 0 <= s < start.len() ==> #[trigger] cursors@[s] == if in_matching(matching@.take(k as int), s) {
                    start[s] + 1
                } else {
                    start[s] as int
                },
            decreases matching@.len() - k,
        {
            let (s, i) = matching[k];
            let ghost before = cursors@;
            proof {
                if in_matching(matching@.take(k as int), s as int) {
                    let kk = choose|kk: int| 0 <= kk < k && (#[trigger] matching@.take(k as int)[kk]).0 as int == s;
                    assert(matching@[kk].0 < matching@[k as int].0);
                }
                assert(cursors@[s as int] == start[s as int]);
                assert(start[s as int] < terms_len(self.readers@, field as int, s as int));
                assert(self.readers@[s as int].fields@[field as int].terms.len() == terms_len(self.readers@, field as int, s as int));
            }
            cursors.set(s, i + 1);
            proof {
                assert forall|x: int| 0 <= x < start.len() implies #[trigger] cursors@[x] == if in_matching(matching@.take(k + 1), x) {
                    start[x] + 1
                } else {
                    start[x] as int
                } by {
                    if x == s {
                        assert(matching@.take(k + 1)[k as int].0 == s);
                    } else {
                        if in_matching(matching@.take(k + 1), x) {
                            let kk = choose|kk: int| 0 <= kk < k + 1 && (#[trigger] matching@.take(k + 1)[kk]).0 as int == x;
                            assert(matching@.take(k as int)[kk].0 as int == x);
                        }
                        if in_matching(matching@.take(k as int), x) {
                            let kk = choose|kk: int| 0 <= kk < k && (#[trigger] matching@.take(k as int)[kk]).0 as int == x;
                            assert(matching@.take(k + 1)[kk].0 as int == x);
                        }
                    }
                }
            }
            k = k + 1;
        }
        assert(matching@.take(matching@.len() as int) =~= matching@);
    }

    /// Records, for each segment of `matching`, that its current term gets ordinal `to_ord`.
    pub(crate) fn register_matching(
        &self,
        field: usize,
        tom: &mut TermOrdinalMapping,
        matching: &Vec<(usize, usize)>,
        to_ord: u64,
    )
        requires
            old(tom)@.len() == self.readers@.len(),
            forall|s: int| 0 <= s < self.readers@.len() ==> (#[trigger] old(tom)@[s]).len() == terms_len(self.readers@, field as int, s),
            forall|k: int| 0 <= k < matching@.len() ==> {
                &&& (#[trigger] matching@[k]).0 < self.readers@.len()
                &&& matching@[k].1 < terms_len(self.readers@, field as int, matching@[k].0 as int)
            },
        ensures
            final(tom)@.len() == old(tom)@.len(),
            forall|s: int| 0 <= s < self.readers@.len() ==> (#[trigger] final(tom)@[s]).len() == old(tom)@[s].len(),
            forall|s: int, i: int| 0 <= s < self.readers@.len() && 0 <= i < terms_len(self.readers@, field as int, s)
                ==> #[trigger] final(tom)@[s][i] == if exists|k: int| 0 <= k < matching@.len() && matching@[k].0 as int == s && matching@[k].1 as int == i {
                    to_ord
                } else {
                    old(tom)@[s][i]
                },
    {
        let ghost start = tom@;
        let mut k: usize = 0;
        while k < matching.len()
            invariant
                start.len() == self.readers@.len(),
                forall|s: int| 0 <= s < self.readers@.len() ==> (#[trigger] start[s]).len() == terms_len(self.readers@, field as int, s),
                forall|k: int| 0 <= k < matching@.len() ==> {
                    &&& (#[trigger] matching@[k]).0 < self.readers@.len()
                    &&& matching@[k].1 < terms_len(self.readers@, field as int, matching@[k].0 as int)
                },
                k <= matching@.len(),
                tom@.len() == start.len(),
                forall|s: int| 0 <= s < self.readers@.len() ==> (#[trigger] tom@[s]).len() == start[s].len(),
                forall|s: int, i: int| 0 <= s < self.readers@.len() && 0 <= i < terms_len(self.readers@, field as int, s)
                    ==> #[trigger] tom@[s][i] == if exists|kk: int| 0 <= kk < k && matching@[kk].0 as int == s && matching@[kk].1 as int == i {
                        to_ord
                    } else {
                        start[s][i]
                    },
            decreases matching@.len() - k,
        {
            let (s, i) = matching[k];
            tom.register_from_to(s, i as u64, to_ord);
            proof {
                assert forall|x: int, y: int| 0 <= x < self.readers@.len() && 0 <= y < terms_len(self.readers@, field as int, x)
                    implies #[trigger] tom@[x][y] == if exists|kk: int| 0 <= kk < k + 1 && matching@[kk].0 as int == x && matching@[kk].1 as int == y {
                        to_ord
                    } else {
                        start[x][y]
                    } by {
                    if x == s && y == i {
                        assert(matching@[k as int].0 as int == x && matching@[k as int].1 as int == y);
                    } else if exists|kk: int| 0 <= kk < k + 1 && matching@[kk].0 as int == x && matching@[kk].1 as int == y {
                        let kk = choose|kk: int| 0 <= kk < k + 1 && matching@[kk].0 as int == x && matching@[kk].1 as int == y;
                        assert(kk < k);
                    }
                }
            }
            k = k + 1;
        }
    }
}

/// The term dictionary of a valid segment is strictly ascending.
pub proof fn lemma_terms_sorted(readers: Seq<SegmentReader>, field: int, schema: Schema, s: int, i: int, j: int)
    requires
        readers_wf(readers, schema),
        0 <= field < schema.fields@.len(),
        0 <= s < readers.len(),
        0 <= i < j < terms_len(readers, field, s),
    ensures
        lex_lt(term_at(readers, field, s, i).term@, term_at(readers, field, s, j).term@),
{
    assert(readers[s].wf(schema));
    assert(readers[s].fields@[field].wf(schema.fields@[field], readers[s].max_doc as int));
}

/// What the current smallest term and its segments give: they are a valid
/// `matching`, and the term comes after everything taken so far.
pub proof fn lemma_matching_facts(
    readers: Seq<SegmentReader>,
    field: int,
    schema: Schema,
    c: Seq<usize>,
    started: bool,
    last: Seq<u8>,
    out: Seq<MergedTerm>,
    b: int,
    m: Seq<(usize, usize)>,
)
    requires
        readers_wf(readers, schema),
        0 <= field < schema.fields@.len(),
        merge_state_ok(readers, field, c, started, last, out),
        0 <= b < c.len(),
        c[b] < terms_len(readers, field, b),
        forall|s: int| 0 <= s < c.len() && #[trigger] c[s] < terms_len(readers, field, s)
            ==> cur_term(readers, field, c, s) == cur_term(readers, field, c, b) || lex_lt(cur_term(readers, field, c, b), cur_term(readers, field, c, s)),
        forall|k: int| 0 <= k < m.len() ==> {
            &&& (#[trigger] m[k]).0 < c.len()
            &&& m[k].1 == c[m[k].0 as int]
            &&& m[k].1 < terms_len(readers, field, m[k].0 as int)
            &&& cur_term(readers, field, c, m[k].0 as int) == cur_term(readers, field, c, b)
        },
        forall|x: int, y: int| 0 <= x < y < m.len() ==> (#[trigger] m[x]).0 < (#[trigger] m[y]).0,
        forall|s: int| 0 <= s < c.len() && #[trigger] c[s] < terms_len(readers, field, s)
            && cur_term(readers, field, c, s) == cur_term(readers, field, c, b)
            ==> exists|k: int| 0 <= k < m.len() && m[k].0 as int == s,
    ensures
        matching_ok(readers, field, m, cur_term(readers, field, c, b)),
        started ==> lex_lt(last, cur_term(readers, field, c, b)),
        m.len() <= readers.len(),
{
    let t = cur_term(readers, field, c, b);
    lemma_ascending_index(m, c.len() as int);
    assert forall|s: int, i: int|
        0 <= s < readers.len() && 0 <= i < readers[s].fields@[field].terms@.len() && (#[trigger] term_at(
            readers,
            field,
            s,
            i,
        )).term@ == t implies exists|k: int| 0 <= k < m.len() && m[k].0 as int == s && m[k].1 as int == i by {
        if i < c[s] {
            if started {
                assert(lex_lt(last, t));
                if term_at(readers, field, s, i).term@ != last {
                    lemma_lex_transitive(t, last, t);
                }
                lemma_lex_irreflexive(t);
            } else {
                assert(c[s] == 0);
            }
        } else if i > c[s] {
            lemma_terms_sorted(readers, field, schema, s, c[s] as int, i);
            if cur_term(readers, field, c, s) != t {
                lemma_lex_transitive(t, cur_term(readers, field, c, s), t);
            }
            lemma_lex_irreflexive(t);
        } else {
            let k = choose|k: int| 0 <= k < m.len() && m[k].0 as int == s;
        }
    }
}

/// No live posting overall means none in any segment.
pub proof fn lemma_match_freq_zero(readers: Seq<SegmentReader>, field: int, m: Seq<(usize, usize)>)
    requires
        match_freq(readers, field, m) == 0,
    ensures
        forall|k: int| 0 <= k < m.len() ==> alive_count(readers[(#[trigger] m[k]).0 as int], term_at(readers, field, m[k].0 as int, m[k].1 as int).postings@) == 0,
    decreases m.len(),
{
    if m.len() > 0 {
        lemma_match_freq_zero(readers, field, m.drop_last());
        assert forall|k: int| 0 <= k < m.len() implies alive_count(readers[(#[trigger] m[k]).0 as int], term_at(readers, field, m[k].0 as int, m[k].1 as int).postings@) == 0 by {
            if k < m.len() - 1 {
                assert(m[k] == m.drop_last()[k]);
            }
        }
    }
}

/// One step of the dictionary merge keeps its invariants.
pub proof fn lemma_merge_step(
    readers: Seq<SegmentReader>,
    field: int,
    schema: Schema,
    c: Seq<usize>,
    c2: Seq<usize>,
    started: bool,
    last: Seq<u8>,
    out: Seq<MergedTerm>,
    out2: Seq<MergedTerm>,
    b: int,
    m: Seq<(usize, usize)>,
)
    requires
        readers_wf(readers, schema),
        0 <= field < schema.fields@.len(),
        merge_state_ok(readers, field, c, started, last, out),
        taken_terms_ok(readers, field, c, out),
        forall|x: int, y: int| 0 <= x < y < out.len() ==> lex_lt((#[trigger] out[x]).term@, (#[trigger] out[y]).term@),
        0 <= b < c.len(),
        c[b] < terms_len(readers, field, b),
        forall|s: int| 0 <= s < c.len() && #[trigger] c[s] < terms_len(readers, field, s)
            ==> cur_term(readers, field, c, s) == cur_term(readers, field, c, b) || lex_lt(cur_term(readers, field, c, b), cur_term(readers, field, c, s)),
        forall|k: int| 0 <= k < m.len() ==> {
            &&& (#[trigger] m[k]).0 < c.len()
            &&& m[k].1 == c[m[k].0 as int]
            &&& m[k].1 < terms_len(readers, field, m[k].0 as int)
            &&& cur_term(readers, field, c, m[k].0 as int) == cur_term(readers, field, c, b)
        },
        forall|s: int| 0 <= s < c.len() && #[trigger] c[s] < terms_len(readers, field, s)
            && cur_term(readers, field, c, s) == cur_term(readers, field, c, b)
            ==> exists|k: int| 0 <= k < m.len() && m[k].0 as int == s,
        matching_ok(readers, field, m, cur_term(readers, field, c, b)),
        started ==> lex_lt(last, cur_term(readers, field, c, b)),
        c2.len() == c.len(),
        forall|s: int| 0 <= s < c.len() ==> #[trigger] c2[s] == if in_matching(m, s) {
            c[s] + 1
        } else {
            c[s] as int
        },
        match_freq(readers, field, m) > 0 ==> out2.len() == out.len() + 1 && out2.drop_last() == out
            && out2.last().term@ == cur_term(readers, field, c, b),
        match_freq(readers, field, m) == 0 ==> out2 == out,
    ensures
        merge_state_ok(readers, field, c2, true, cur_term(readers, field, c, b), out2),
        taken_terms_ok(readers, field, c2, out2),
        out.len() > 0 ==> lex_lt(out.last().term@, cur_term(readers, field, c, b)),
        forall|tt: Seq<u8>| tt != cur_term(readers, field, c, b) ==> (has_term(out2, tt) == has_term(out, tt)),
        !has_term(out, cur_term(readers, field, c, b)),
{
    let t = cur_term(readers, field, c, b);
    if out.len() > 0 {
        assert(started);
        if out.last().term@ != last {
            lemma_lex_transitive(out.last().term@, last, t);
        }
    }
    assert forall|k: int| 0 <= k < out.len() implies lex_lt((#[trigger] out[k]).term@, t) by {
        if k < out.len() - 1 {
            assert(lex_lt(out[k].term@, out[out.len() - 1].term@));
            lemma_lex_transitive(out[k].term@, out.last().term@, t);
        }
    }
    if has_term(out, t) {
        let k = choose|k: int| 0 <= k < out.len() && (#[trigger] out[k]).term@ == t;
        lemma_lex_irreflexive(t);
    }
    assert forall|tt: Seq<u8>| tt != t implies (has_term(out2, tt) == has_term(out, tt)) by {
        if match_freq(readers, field, m) > 0 {
            if has_term(out2, tt) {
                let k = choose|k: int| 0 <= k < out2.len() && (#[trigger] out2[k]).term@ == tt;
                if k < out.len() {
                    assert(out2.drop_last()[k] == out2[k]);
                }
            }
            if has_term(out, tt) {
                let k = choose|k: int| 0 <= k < out.len() && (#[trigger] out[k]).term@ == tt;
                assert(out2.drop_last()[k] == out2[k]);
            }
        }
    }
    assert forall|s: int| 0 <= s < c2.len() implies #[trigger] c2[s] <= terms_len(readers, field, s) by {
        if in_matching(m, s) {
            let k = choose|k: int| 0 <= k < m.len() && (#[trigger] m[k]).0 as int == s;
        }
    }
    assert forall|s: int, i: int|
        0 <= s < c2.len() && c2[s] <= i < terms_len(readers, field, s) implies lex_lt(t, #[trigger] term_at(readers, field, s, i).term@) by {
        if in_matching(m, s) {
            let k = choose|k: int| 0 <= k < m.len() && (#[trigger] m[k]).0 as int == s;
            lemma_terms_sorted(readers, field, schema, s, c[s] as int, i);
        } else {
            if cur_term(readers, field, c, s) == t {
                let k = choose|k: int| 0 <= k < m.len() && m[k].0 as int == s;
                assert(in_matching(m, s));
            }
            if i > c[s] {
                lemma_terms_sorted(readers, field, schema, s, c[s] as int, i);
                lemma_lex_transitive(t, cur_term(readers, field, c, s), term_at(readers, field, s, i).term@);
            }
        }
    }
    assert forall|s: int, i: int| 0 <= s < c2.len() && 0 <= i < c2[s] implies #[trigger] term_at(readers, field, s, i).term@ == t
        || lex_lt(term_at(readers, field, s, i).term@, t) by {
        if i < c[s] {
            assert(started);
            if term_at(readers, field, s, i).term@ != last {
                lemma_lex_transitive(term_at(readers, field, s, i).term@, last, t);
            }
        } else {
            assert(in_matching(m, s));
            let k = choose|k: int| 0 <= k < m.len() && (#[trigger] m[k]).0 as int == s;
        }
    }
    if match_freq(readers, field, m) == 0 {
        lemma_match_freq_zero(readers, field, m);
    }
    assert forall|s: int, i: int|
        0 <= s < c2.len() && 0 <= i < c2[s] && alive_count(readers[s], term_at(readers, field, s, i).postings@) > 0
            implies #[trigger] has_term(out2, term_at(readers, field, s, i).term@) by {
        let tt = term_at(readers, field, s, i).term@;
        if i < c[s] {
            assert(has_term(out, tt));
            if tt == t {
                assert(false);
            }
        } else {
            assert(in_matching(m, s));
            let k = choose|k: int| 0 <= k < m.len() && (#[trigger] m[k]).0 as int == s;
            assert(tt == t);
            if match_freq(readers, field, m) > 0 {
                assert(out2[out2.len() - 1].term@ == t);
            } else {
                assert(alive_count(readers[m[k].0 as int], term_at(readers, field, m[k].0 as int, m[k].1 as int).postings@) == 0);
            }
        }
    }
}


} // verus!
