use vstd::prelude::*;
use crate::schema::TermOrdinal;

verus! {

/// For each segment, the new term ordinal of each of its old term ordinals
/// (0 for a term that did not survive the merge).
pub struct TermOrdinalMapping {
    pub per_segment_new_term_ordinals: Vec<Vec<TermOrdinal>>,
}

pub open spec fn seq_of_seqs(v: Seq<Vec<TermOrdinal>>) -> Seq<Seq<TermOrdinal>> {
    v.map_values(|x: Vec<TermOrdinal>| x@)
}

/// The greatest element of a sequence of sequences, 0 if there is none.
pub open spec fn max_of_all(v: Seq<Seq<TermOrdinal>>) -> TermOrdinal
    decreases v.len(),
{
    if v.len() == 0 {
        0
    } else {
        let a = max_of_all(v.drop_last());
        let b = max_of_seq(v.last());
        if a >= b {
            a
        } else {
            b
        }
    }
}

pub open spec fn max_of_seq(v: Seq<TermOrdinal>) -> TermOrdinal
    decreases v.len(),
{
    if v.len() == 0 {
        0
    } else if v.last() >= max_of_seq(v.drop_last()) {
        v.last()
    } else {
        max_of_seq(v.drop_last())
    }
}

/// `max_of_seq` bounds every element and is one of them.
pub proof fn lemma_max_of_seq(v: Seq<TermOrdinal>)
    ensures
        forall|i: int| 0 <= i < v.len() ==> v[i] <= max_of_seq(v),
        v.len() > 0 ==> v.contains(max_of_seq(v)),
    decreases v.len(),
{
    if v.len() > 0 {
        lemma_max_of_seq(v.drop_last());
        assert forall|i: int| 0 <= i < v.len() implies v[i] <= max_of_seq(v) by {
            if i < v.len() - 1 {
                assert(v[i] == v.drop_last()[i]);
            }
        }
        if v.last() < max_of_seq(v.drop_last()) {
            let i = choose|i: int| 0 <= i < v.len() - 1 && v.drop_last()[i] == max_of_seq(v.drop_last());
            assert(v[i] == max_of_seq(v));
        } else {
            assert(v[v.len() - 1] == max_of_seq(v));
        }
    }
}

/// `max_of_all` bounds every element of every row.
pub proof fn lemma_max_of_all(v: Seq<Seq<TermOrdinal>>)
    ensures
        forall|s: int, i: int| 0 <= s < v.len() && 0 <= i < v[s].len() ==> #[trigger] v[s][i] <= max_of_all(v),
    decreases v.len(),
{
    if v.len() > 0 {
        lemma_max_of_all(v.drop_last());
        lemma_max_of_seq(v.last());
        assert forall|s: int, i: int| 0 <= s < v.len() && 0 <= i < v[s].len() implies #[trigger] v[s][i] <= max_of_all(v) by {
            if s < v.len() - 1 {
                assert(v[s] == v.drop_last()[s]);
            }
        }
    }
}

impl TermOrdinalMapping {
    pub open spec fn view(&self) -> Seq<Seq<TermOrdinal>> {
        seq_of_seqs(self.per_segment_new_term_ordinals@)
    }

    /// A mapping of `max_term_ords[s]` zero entries for each segment `s`.
    pub fn new(max_term_ords: Vec<TermOrdinal>) -> (r: TermOrdinalMapping)
        requires
            forall|i: int| 0 <= i < max_term_ords@.len() ==> #[trigger] max_term_ords@[i] <= usize::MAX,
        ensures
            r@.len() == max_term_ords@.len(),
            forall|s: int| 0 <= s < r@.len() ==> (#[trigger] r@[s]) == Seq::new(max_term_ords@[s] as nat, |i: int| 0u64),
    {
        let mut per_segment: Vec<Vec<TermOrdinal>> = Vec::new();
        let mut s: usize = 0;
        while s < max_term_ords.len()
            invariant
                s <= max_term_ords@.len(),
                forall|i: int| 0 <= i < max_term_ords@.len() ==> #[trigger] max_term_ords@[i] <= usize::MAX,
                per_segment@.len() == s,
                forall|j: int| 0 <= j < s ==> (#[trigger] per_segment@[j])@ == Seq::new(max_term_ords@[j] as nat, |i: int| 0u64),
            decreases max_term_ords@.len() - s,
        {
            let n = max_term_ords[s] as usize;
            let mut zeros: Vec<TermOrdinal> = Vec::new();
            let mut i: usize = 0;
            while i < n
                invariant
                    i <= n,
                    zeros@ =~= Seq::new(i as nat, |k: int| 0u64),
                decreases n - i,
            {
                zeros.push(0);
                i = i + 1;
            }
            per_segment.push(zeros);
            s = s + 1;
        }
        TermOrdinalMapping { per_segment_new_term_ordinals: per_segment }
    }

    pub fn register_from_to(&mut self, segment_ord: usize, from_ord: TermOrdinal, to_ord: TermOrdinal)
        requires
            segment_ord < old(self)@.len(),
            from_ord < old(self)@[segment_ord as int].len(),
        ensures
            final(self)@ == old(self)@.update(segment_ord as int, old(self)@[segment_ord as int].update(from_ord as int, to_ord)),
    {
        let ghost old_view = self@;
        let ghost old_vec = self.per_segment_new_term_ordinals@;
        let mut row = self.per_segment_new_term_ordinals.remove(segment_ord);
        assert(row@ == old_view[segment_ord as int]);
        let n = row.len();
        assert(from_ord < n);
        let idx = from_ord as usize;
        row.set(idx, to_ord);
        let ghost new_row = row;
        assert(new_row@ =~= old_view[segment_ord as int].update(from_ord as int, to_ord));
        self.per_segment_new_term_ordinals.insert(segment_ord, row);
        assert(self.per_segment_new_term_ordinals@ =~= old_vec.update(segment_ord as int, new_row));
        assert(self@ =~= old_view.update(segment_ord as int, old_view[segment_ord as int].update(from_ord as int, to_ord)));
    }

    pub fn get_segment(&self, segment_ord: usize) -> (r: &Vec<TermOrdinal>)
        requires
            segment_ord < self@.len(),
        ensures
            r@ == self@[segment_ord as int],
    {
        &self.per_segment_new_term_ordinals[segment_ord]
    }

    /// The greatest new term ordinal of the mapping, 0 if it is empty.
    pub fn max_term_ord(&self) -> (r: TermOrdinal)
        ensures
            r == max_of_all(self@),
    {
        let mut best: TermOrdinal = 0;
        let mut s: usize = 0;
        while s < self.per_segment_new_term_ordinals.len()
            invariant
                s <= self@.len(),
                self@.len() == self.per_segment_new_term_ordinals@.len(),
                best == max_of_all(self@.take(s as int)),
            decreases self@.len() - s,
        {
            let row = &self.per_segment_new_term_ordinals[s];
            let mut row_max: TermOrdinal = 0;
            let mut i: usize = 0;
            while i < row.len()
                invariant
                    i <= row@.len(),
                    row_max == max_of_seq(row@.take(i as int)),
                decreases row@.len() - i,
            {
                assert(row@.take(i + 1).drop_last() =~= row@.take(i as int));
                if row[i] >= row_max {
                    row_max = row[i];
                }
                i = i + 1;
            }
            assert(row@.take(row@.len() as int) =~= row@);
            assert(self@.take(s + 1).drop_last() =~= self@.take(s as int));
            if row_max > best {
                best = row_max;
            }
            s = s + 1;
        }
        assert(self@.take(self@.len() as int) =~= self@);
        best
    }
}

} // verus!
