use vstd::prelude::*;
use crate::schema::{Cardinality, DocId, FieldEntry, FieldKind, Schema};

verus! {

/// Position of a segment in the merger's ordered list of readers.
pub type SegmentOrdinal = u32;

/// One document of a posting list.
#[derive(Clone, Debug)]
pub struct Posting {
    pub doc: DocId,
    pub term_freq: u32,
    /// Absolute positions of the term in the document, ascending.
    pub positions: Vec<u32>,
}

/// A term of a segment's dictionary, with its posting list.
#[derive(Clone, Debug)]
pub struct TermPostings {
    pub term: Vec<u8>,
    pub postings: Vec<Posting>,
}

/// What a segment holds for one field of the schema.
#[derive(Clone, Debug)]
pub struct FieldData {
    /// One quantized norm per document.
    pub fieldnorm_ids: Vec<u8>,
    /// Number of tokens indexed for this field, over all documents of the segment.
    pub total_num_tokens: u64,
    /// The term dictionary in strictly ascending byte order.
    pub terms: Vec<TermPostings>,
    /// The u64 fast-field values of each document (exactly one for a single-valued field).
    pub values: Vec<Vec<u64>>,
    /// The bytes fast-field value of each document.
    pub bytes: Vec<Vec<u8>>,
}

/// The document store of a segment: the raw payload of each document, and the
/// number of documents of each of its compressed blocks.
#[derive(Clone, Debug)]
pub struct StoreReader {
    pub compressor: u8,
    pub docs: Vec<Vec<u8>>,
    pub block_checkpoints: Vec<u32>,
}

/// Read access to one immutable segment.
#[derive(Clone, Debug)]
pub struct SegmentReader {
    pub max_doc: u32,
    /// One bit per document, `true` for a live one; `None` when nothing was deleted.
    pub alive_bitset: Option<Vec<bool>>,
    /// Parallel to the fields of the schema.
    pub fields: Vec<FieldData>,
    pub store: StoreReader,
}

/// Strict lexicographic order on byte strings.
pub open spec fn lex_lt(a: Seq<u8>, b: Seq<u8>) -> bool
    decreases a.len(),
{
    if b.len() == 0 {
        false
    } else if a.len() == 0 {
        true
    } else if a[0] != b[0] {
        a[0] < b[0]
    } else {
        lex_lt(a.drop_first(), b.drop_first())
    }
}

/// No byte string comes before itself.
pub proof fn lemma_lex_irreflexive(a: Seq<u8>)
    ensures
        !lex_lt(a, a),
    decreases a.len(),
{
    if a.len() > 0 {
        lemma_lex_irreflexive(a.drop_first());
    }
}

/// `lex_lt` is transitive.
pub proof fn lemma_lex_transitive(a: Seq<u8>, b: Seq<u8>, c: Seq<u8>)
    requires
        lex_lt(a, b),
        lex_lt(b, c),
    ensures
        lex_lt(a, c),
    decreases a.len(),
{
    if a.len() > 0 && a[0] == b[0] && b[0] == c[0] {
        lemma_lex_transitive(a.drop_first(), b.drop_first(), c.drop_first());
    }
}

/// Any two byte strings are equal or ordered.
pub proof fn lemma_lex_total(a: Seq<u8>, b: Seq<u8>)
    ensures
        a == b || lex_lt(a, b) || lex_lt(b, a),
    decreases a.len(),
{
    if a.len() > 0 && b.len() > 0 && a[0] == b[0] {
        lemma_lex_total(a.drop_first(), b.drop_first());
        if a.drop_first() == b.drop_first() {
            assert(a =~= seq![a[0]] + a.drop_first());
            assert(b =~= seq![b[0]] + b.drop_first());
        }
    } else if a.len() == 0 && b.len() == 0 {
        assert(a =~= b);
    }
}

/// Exact comparison of byte strings under `lex_lt`.
pub fn bytes_lt(a: &Vec<u8>, b: &Vec<u8>) -> (r: bool)
    ensures
        r == lex_lt(a@, b@),
{
    let mut i: usize = 0;
    proof {
        assert(a@.skip(0) =~= a@);
        assert(b@.skip(0) =~= b@);
    }
    while i < a.len() && i < b.len()
        invariant
            i <= a@.len(),
            i <= b@.len(),
            a@.subrange(0, i as int) == b@.subrange(0, i as int),
            lex_lt(a@, b@) == lex_lt(a@.skip(i as int), b@.skip(i as int)),
        decreases a.len() - i,
    {
        if a[i] != b[i] {
            return a[i] < b[i];
        }
        proof {
            assert(a@.skip(i as int).drop_first() =~= a@.skip(i + 1));
            assert(b@.skip(i as int).drop_first() =~= b@.skip(i + 1));
            assert(a@.subrange(0, i + 1) =~= a@.subrange(0, i as int).push(a@[i as int]));
            assert(b@.subrange(0, i + 1) =~= b@.subrange(0, i as int).push(b@[i as int]));
        }
        i = i + 1;
    }
    i < b.len()
}

/// Exact equality of byte strings.
pub fn bytes_eq(a: &Vec<u8>, b: &Vec<u8>) -> (r: bool)
    ensures
        r == (a@ == b@),
{
    if a.len() != b.len() {
        return false;
    }
    let mut i: usize = 0;
    while i < a.len()
        invariant
            a@.len() == b@.len(),
            i <= a@.len(),
            forall|j: int| 0 <= j < i ==> a@[j] == b@[j],
        decreases a.len() - i,
    {
        if a[i] != b[i] {
            return false;
        }
        i = i + 1;
    }
    assert(a@ =~= b@);
    true
}

pub open spec fn postings_sorted(p: Seq<Posting>, max_doc: int) -> bool {
    &&& forall|i: int, j: int| 0 <= i < j < p.len() ==> p[i].doc < p[j].doc
    &&& forall|i: int| 0 <= i < p.len() ==> p[i].doc < max_doc
    &&& forall|i: int, j: int, k: int|
        0 <= i < p.len() && 0 <= j <= k < p[i].positions@.len()
            ==> p[i].positions@[j] <= p[i].positions@[k]
}

pub open spec fn terms_sorted(t: Seq<TermPostings>) -> bool {
    forall|i: int, j: int| 0 <= i < j < t.len() ==> lex_lt(t[i].term@, t[j].term@)
}

impl FieldData {
    pub open spec fn wf(&self, entry: FieldEntry, max_doc: int) -> bool {
        &&& self.fieldnorm_ids@.len() == max_doc
        &&& self.values@.len() == max_doc
        &&& self.bytes@.len() == max_doc
        &&& forall|d: int| 0 <= d < max_doc ==> (#[trigger] self.values@[d])@.len() <= u32::MAX
        &&& forall|d: int| 0 <= d < max_doc ==> (#[trigger] self.bytes@[d])@.len() <= u32::MAX
        &&& terms_sorted(self.terms@)
        &&& forall|i: int| 0 <= i < self.terms@.len()
            ==> postings_sorted(#[trigger] self.terms@[i].postings@, max_doc)
        &&& !entry.indexed ==> self.terms@.len() == 0
        &&& entry.kind == FieldKind::Numeric(Some(Cardinality::SingleValue))
            ==> forall|d: int| 0 <= d < max_doc ==> (#[trigger] self.values@[d])@.len() == 1
        &&& entry.kind == FieldKind::HierarchicalFacet ==> forall|d: int, j: int|
            0 <= d < max_doc && 0 <= j < self.values@[d]@.len()
                ==> #[trigger] self.values@[d]@[j] < self.terms@.len()
    }
}

impl SegmentReader {
    pub open spec fn wf(&self, schema: Schema) -> bool {
        &&& self.fields@.len() == schema.fields@.len()
        &&& match self.alive_bitset {
            Some(b) => b@.len() == self.max_doc,
            None => true,
        }
        &&& forall|f: int| 0 <= f < self.fields@.len()
            ==> (#[trigger] self.fields@[f]).wf(schema.fields@[f], self.max_doc as int)
        &&& self.store.wf(self.max_doc as int)
    }

    pub open spec fn spec_is_alive(&self, doc: int) -> bool {
        match self.alive_bitset {
            Some(b) => b@[doc],
            None => true,
        }
    }

    /// The live documents below `n`, in ascending order.
    pub open spec fn alive_below(&self, n: int) -> Seq<DocId>
        decreases n,
    {
        if n <= 0 {
            seq![]
        } else if self.spec_is_alive(n - 1) {
            self.alive_below(n - 1).push((n - 1) as DocId)
        } else {
            self.alive_below(n - 1)
        }
    }

    pub open spec fn alive_docs(&self) -> Seq<DocId> {
        self.alive_below(self.max_doc as int)
    }

    pub open spec fn spec_num_docs(&self) -> nat {
        self.alive_docs().len()
    }

    pub fn is_alive(&self, doc: DocId) -> (r: bool)
        requires
            doc < self.max_doc,
            match self.alive_bitset {
                Some(b) => b@.len() == self.max_doc,
                None => true,
            },
        ensures
            r == self.spec_is_alive(doc as int),
    {
        match &self.alive_bitset {
            Some(b) => b[doc as usize],
            None => true,
        }
    }

    pub fn has_deletes(&self) -> (r: bool)
        ensures
            r == self.alive_bitset.is_some(),
    {
        self.alive_bitset.is_some()
    }

    /// The number of live documents.
    pub fn num_docs(&self) -> (r: u32)
        requires
            match self.alive_bitset {
                Some(b) => b@.len() == self.max_doc,
                None => true,
            },
        ensures
            r == self.spec_num_docs(),
    {
        if self.alive_bitset.is_none() {
            proof {
                lemma_all_alive(*self, self.max_doc as int);
            }
            return self.max_doc;
        }
        let mut n: u32 = 0;
        let mut d: u32 = 0;
        while d < self.max_doc
            invariant
                d <= self.max_doc,
                n == self.alive_below(d as int).len(),
                n <= d,
                match self.alive_bitset {
                    Some(b) => b@.len() == self.max_doc,
                    None => true,
                },
            decreases self.max_doc - d,
        {
            if self.is_alive(d) {
                n = n + 1;
            }
            d = d + 1;
        }
        n
    }
}

/// Without a delete bitset every document below `n` is live.
pub proof fn lemma_all_alive(r: SegmentReader, n: int)
    requires
        r.alive_bitset.is_none(),
        0 <= n <= r.max_doc,
    ensures
        r.alive_below(n).len() == n,
    decreases n,
{
    if n > 0 {
        lemma_all_alive(r, n - 1);
    }
}

impl StoreReader {
    /// One payload per document of the segment.
    pub open spec fn wf(&self, max_doc: int) -> bool {
        self.docs@.len() == max_doc
    }
}

} // verus!
