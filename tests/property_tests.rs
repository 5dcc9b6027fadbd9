use segment_merger::fastfield::FastFieldColumn;
use segment_merger::fieldnorm::{compute_total_num_tokens, id_to_fieldnorm};
use segment_merger::merger::{IndexMerger, SegmentSerializer};
use segment_merger::postings::DeltaComputer;
use segment_merger::schema::{
    Cardinality, FieldEntry, FieldKind, IndexSettings, IndexSortByField, MergeError, Order, Schema,
};
use segment_merger::segment::{FieldData, Posting, SegmentReader, StoreReader, TermPostings};

fn empty_field(n: usize) -> FieldData {
    FieldData {
        fieldnorm_ids: vec![0; n],
        total_num_tokens: 0,
        terms: vec![],
        values: vec![vec![]; n],
        bytes: vec![vec![]; n],
    }
}

/// A text field whose documents are space-separated tokens.
fn text(texts: &[&str]) -> FieldData {
    let mut dict: std::collections::BTreeMap<Vec<u8>, Vec<Posting>> = std::collections::BTreeMap::new();
    for (doc, t) in texts.iter().enumerate() {
        let mut per: std::collections::BTreeMap<Vec<u8>, Vec<u32>> = std::collections::BTreeMap::new();
        for (pos, w) in t.split_whitespace().enumerate() {
            per.entry(w.as_bytes().to_vec()).or_default().push(pos as u32);
        }
        for (w, positions) in per {
            dict.entry(w).or_default().push(Posting { doc: doc as u32, term_freq: positions.len() as u32, positions });
        }
    }
    let mut f = empty_field(texts.len());
    f.fieldnorm_ids = texts.iter().map(|t| t.split_whitespace().count() as u8).collect();
    f.total_num_tokens = texts.iter().map(|t| t.split_whitespace().count() as u64).sum();
    f.terms = dict.into_iter().map(|(term, postings)| TermPostings { term, postings }).collect();
    f
}

fn ints(vals: &[u64]) -> FieldData {
    let mut f = empty_field(vals.len());
    f.values = vals.iter().map(|v| vec![*v]).collect();
    f
}

fn schema() -> Schema {
    Schema {
        fields: vec![
            FieldEntry { kind: FieldKind::Text, indexed: true, positions: true, fieldnorms: true },
            FieldEntry {
                kind: FieldKind::Numeric(Some(Cardinality::SingleValue)),
                indexed: false,
                positions: false,
                fieldnorms: false,
            },
        ],
    }
}

fn seg(docs: &[(&str, u64)], deleted: &[u32], blocks: Vec<u32>, compressor: u8) -> SegmentReader {
    let texts: Vec<&str> = docs.iter().map(|d| d.0).collect();
    let vals: Vec<u64> = docs.iter().map(|d| d.1).collect();
    let max_doc = docs.len() as u32;
    SegmentReader {
        max_doc,
        alive_bitset: if deleted.is_empty() {
            None
        } else {
            Some((0..max_doc).map(|d| !deleted.contains(&d)).collect())
        },
        fields: vec![text(&texts), ints(&vals)],
        store: StoreReader {
            compressor,
            docs: texts.iter().map(|t| t.as_bytes().to_vec()).collect(),
            block_checkpoints: blocks,
        },
    }
}

fn sorted(order: Order) -> IndexSettings {
    IndexSettings { sort_by_field: Some(IndexSortByField { field: 1, order }) }
}

fn run(settings: IndexSettings, segments: Vec<SegmentReader>) -> (u32, SegmentSerializer) {
    let merger = IndexMerger::open(schema(), settings, segments).expect("open failed");
    let mut s = SegmentSerializer::new(1);
    let n = merger.write(&mut s).expect("merge failed");
    (n, s)
}

fn values(s: &SegmentSerializer) -> Vec<u64> {
    match &s.fast_fields[0].column {
        FastFieldColumn::Single(c) => c.vals.clone(),
        _ => panic!("not a single-valued column"),
    }
}

fn docs_of(s: &SegmentSerializer, t: &str) -> Vec<u32> {
    s.postings[0]
        .terms
        .iter()
        .find(|m| m.term == t.as_bytes())
        .map(|m| m.postings.iter().map(|p| p.doc).collect())
        .unwrap_or_default()
}

fn stored(s: &SegmentSerializer) -> Vec<String> {
    s.store_writer.docs.iter().map(|d| String::from_utf8(d.clone()).unwrap()).collect()
}

#[test]
fn merged_doc_count_is_sum_of_live_docs() {
    let a = seg(&[("x", 1), ("y", 2), ("z", 3)], &[1], vec![3], 1);
    let b = seg(&[("x", 4), ("w", 5)], &[], vec![2], 1);
    let c = seg(&[("v", 6)], &[0], vec![1], 1);
    let (n, s) = run(IndexSettings { sort_by_field: None }, vec![a, b, c]);
    assert_eq!(n, 4);
    assert_eq!(values(&s), vec![1, 3, 4, 5]);
    assert_eq!(s.fieldnorms[0].data.len(), 4);
    assert_eq!(stored(&s), vec!["x", "z", "x", "w"]);
}

#[test]
fn sorted_merge_with_overlap_is_a_stable_global_sort() {
    let a = seg(&[("a0 t", 1), ("a1 t", 4), ("a2 t", 4), ("a3 t", 9)], &[], vec![4], 1);
    let b = seg(&[("b0 t", 2), ("b1 t", 4), ("b2 t", 7)], &[], vec![3], 1);
    let (n, s) = run(sorted(Order::Asc), vec![a, b]);
    assert_eq!(n, 7);
    assert_eq!(values(&s), vec![1, 2, 4, 4, 4, 7, 9]);
    assert_eq!(stored(&s), vec!["a0 t", "b0 t", "a1 t", "a2 t", "b1 t", "b2 t", "a3 t"]);
    assert_eq!(docs_of(&s, "b1"), vec![4]);
    assert_eq!(docs_of(&s, "a3"), vec![6]);
    // The postings of a term that both segments hold come out in new doc-id order.
    assert_eq!(docs_of(&s, "t"), vec![0, 1, 2, 3, 4, 5, 6]);
    let t = s.postings[0].terms.iter().find(|m| m.term == b"t").unwrap();
    assert!(t.postings.iter().all(|p| p.position_deltas == vec![1]));
}

#[test]
fn sorted_merge_descending() {
    let a = seg(&[("a0", 9), ("a1", 3)], &[], vec![2], 1);
    let b = seg(&[("b0", 5), ("b1", 3), ("b2", 1)], &[], vec![3], 1);
    let (n, s) = run(sorted(Order::Desc), vec![a, b]);
    assert_eq!(n, 5);
    assert_eq!(values(&s), vec![9, 5, 3, 3, 1]);
    assert_eq!(stored(&s), vec!["a0", "b0", "a1", "b1", "b2"]);
}

#[test]
fn sorted_mapping_is_a_bijection_in_sort_order() {
    let a = seg(&[("a0", 3), ("a1", 8), ("a2", 10)], &[1], vec![3], 1);
    let b = seg(&[("b0", 2), ("b1", 9)], &[], vec![2], 1);
    let merger = IndexMerger::open(schema(), sorted(Order::Asc), vec![a, b]).unwrap();
    let sort = IndexSortByField { field: 1, order: Order::Asc };
    assert_eq!(merger.is_disjunct_and_sorted_on_sort_property(&sort), Ok(false));
    let m = merger.generate_doc_id_mapping(&sort).unwrap();
    // Segment b has the least value, so it comes first among the readers.
    assert_eq!(m, vec![(0, 0), (0, 1), (1, 0), (2, 1)]);
}

#[test]
fn disjoint_segments_are_stacked_in_sort_order() {
    let a = seg(&[("a0", 5), ("a1", 6)], &[], vec![2], 1);
    let b = seg(&[("b0", 1), ("b1", 5)], &[], vec![2], 1);
    let merger = IndexMerger::open(schema(), sorted(Order::Asc), vec![a, b]).unwrap();
    // The readers are reordered by their least sort value: b, then a.
    assert_eq!(merger.readers[0].store.docs[0], b"b0".to_vec());
    let sort = IndexSortByField { field: 1, order: Order::Asc };
    assert_eq!(merger.is_disjunct_and_sorted_on_sort_property(&sort), Ok(true));
    assert_eq!(merger.doc_id_mapping(), Ok(None));
    let m = merger.generate_doc_id_mapping(&sort).unwrap();
    assert_eq!(m, vec![(0, 0), (1, 0), (0, 1), (1, 1)]);
    let mut s = SegmentSerializer::new(1);
    assert_eq!(merger.write(&mut s), Ok(4));
    assert_eq!(stored(&s), vec!["b0", "b1", "a0", "a1"]);
}

#[test]
fn sort_field_accessor_bounds() {
    let a = seg(&[("a0", 7), ("a1", 2), ("a2", 11)], &[2], vec![3], 1);
    let sort = IndexSortByField { field: 1, order: Order::Asc };
    let acc = IndexMerger::get_sort_field_accessor(&schema(), &a, &sort).unwrap();
    // Deleted documents count too.
    assert_eq!((acc.min_value, acc.max_value), (2, 11));
}

#[test]
fn deleted_term_is_absent_from_the_dictionary() {
    let a = seg(&[("a b", 1), ("b c", 2), ("c d", 3)], &[1, 2], vec![3], 1);
    let b = seg(&[("c e", 4), ("e f", 5)], &[0], vec![2], 1);
    let (n, s) = run(IndexSettings { sort_by_field: None }, vec![a, b]);
    assert_eq!(n, 2);
    let terms: Vec<String> = s.postings[0].terms.iter().map(|t| String::from_utf8(t.term.clone()).unwrap()).collect();
    assert_eq!(terms, vec!["a", "b", "e", "f"]);
    assert!(docs_of(&s, "c").is_empty());
    assert!(docs_of(&s, "d").is_empty());
    assert_eq!(docs_of(&s, "e"), vec![1]);
    assert!(s.postings[0].terms.iter().all(|t| t.doc_freq as usize == t.postings.len() && t.doc_freq > 0));
}

#[test]
fn position_deltas_restart_at_each_document() {
    let a = seg(&[("a b a a", 1), ("b a", 2)], &[], vec![2], 1);
    let (_, s) = run(IndexSettings { sort_by_field: None }, vec![a]);
    let t = s.postings[0].terms.iter().find(|t| t.term == b"a").unwrap();
    assert_eq!(t.postings[0].term_freq, 3);
    assert_eq!(t.postings[0].position_deltas, vec![0, 2, 1]);
    assert_eq!(t.postings[1].position_deltas, vec![1]);
    let mut dc = DeltaComputer::new();
    let n = dc.compute_delta(&vec![3, 7, 7, 20]);
    assert_eq!(&dc.buffer[..n], &[3, 4, 0, 13]);
}

#[test]
fn fieldnorm_decoding() {
    assert_eq!(id_to_fieldnorm(0), 0);
    assert_eq!(id_to_fieldnorm(23), 23);
    assert_eq!(id_to_fieldnorm(40), 40);
    assert_eq!(id_to_fieldnorm(41), 42);
    assert_eq!(id_to_fieldnorm(49), 60);
    assert_eq!(id_to_fieldnorm(56), 88);
    assert_eq!(id_to_fieldnorm(255), 2_013_265_944);
}

#[test]
fn token_counts_with_and_without_deletes() {
    let a = seg(&[("a b c", 1), ("d e", 2)], &[], vec![2], 1);
    let b = seg(&[("f g h i", 3), ("j", 4)], &[], vec![2], 1);
    assert_eq!(compute_total_num_tokens(&vec![a.clone(), b.clone()], 0), 10);
    let b_deleted = seg(&[("f g h i", 3), ("j", 4)], &[1], vec![2], 1);
    // With deletes, the live documents count through their fieldnorms.
    assert_eq!(compute_total_num_tokens(&vec![a.clone(), b_deleted], 0), 9);
    let (_, s) = run(IndexSettings { sort_by_field: None }, vec![a, b]);
    assert_eq!(s.postings[0].total_num_tokens, 10);
}

#[test]
fn single_segment_merge_keeps_its_content() {
    let a = seg(&[("x y", 4), ("y z", 1), ("z", 9)], &[], vec![3], 1);
    let (n, s) = run(IndexSettings { sort_by_field: None }, vec![a.clone()]);
    assert_eq!(n, 3);
    assert_eq!(values(&s), vec![4, 1, 9]);
    assert_eq!(s.fieldnorms[0].data, a.fields[0].fieldnorm_ids);
    for (t, input) in s.postings[0].terms.iter().zip(a.fields[0].terms.iter()) {
        assert_eq!(t.term, input.term);
        let docs: Vec<u32> = t.postings.iter().map(|p| p.doc).collect();
        let input_docs: Vec<u32> = input.postings.iter().map(|p| p.doc).collect();
        assert_eq!(docs, input_docs);
    }
    assert_eq!(s.postings[0].terms.len(), a.fields[0].terms.len());
}

#[test]
fn stored_blocks_are_stacked_when_large_enough() {
    let big = |p: &str| {
        let docs: Vec<(String, u64)> = (0..12).map(|i| (format!("{}{}", p, i), i)).collect();
        let refs: Vec<(&str, u64)> = docs.iter().map(|(t, v)| (t.as_str(), *v)).collect();
        seg(&refs, &[], vec![2; 6], 1)
    };
    let (n, s) = run(IndexSettings { sort_by_field: None }, vec![big("a"), big("b")]);
    assert_eq!(n, 24);
    assert_eq!(s.store_writer.block_checkpoints, vec![2; 12]);
    assert_eq!(stored(&s)[12], "b0");
}

#[test]
fn small_or_foreign_stores_are_reencoded() {
    let small = seg(&[("s0", 1), ("s1", 2)], &[], vec![1, 1], 1);
    let foreign = seg(&[("f0", 1), ("f1", 2), ("f2", 3), ("f3", 4), ("f4", 5), ("f5", 6)], &[], vec![1; 6], 2);
    let (n, s) = run(IndexSettings { sort_by_field: None }, vec![small, foreign]);
    assert_eq!(n, 8);
    // Nothing was stacked: all payloads sit in the one block that `write` closes.
    assert_eq!(s.store_writer.block_checkpoints, vec![8]);
    assert_eq!(stored(&s), vec!["s0", "s1", "f0", "f1", "f2", "f3", "f4", "f5"]);
}

#[test]
fn empty_segments_are_skipped() {
    let a = seg(&[("a", 1)], &[0], vec![1], 1);
    let b = seg(&[], &[], vec![], 1);
    let merger = IndexMerger::open(schema(), IndexSettings { sort_by_field: None }, vec![a, b]).unwrap();
    assert_eq!(merger.readers.len(), 0);
    assert_eq!(merger.max_doc, 0);
    let mut s = SegmentSerializer::new(1);
    assert_eq!(merger.write(&mut s), Ok(0));
    match &s.fast_fields[0].column {
        FastFieldColumn::Single(c) => assert_eq!((c.min_value, c.max_value, c.vals.len()), (0, 0, 0)),
        _ => panic!("not a single-valued column"),
    }
}

#[test]
fn unknown_sort_field_is_an_invalid_argument() {
    let a = seg(&[("a", 1)], &[], vec![1], 1);
    let settings = IndexSettings { sort_by_field: Some(IndexSortByField { field: 7, order: Order::Asc }) };
    assert!(matches!(IndexMerger::open(schema(), settings, vec![a]), Err(MergeError::InvalidArgument)));
}

#[test]
fn sort_field_must_be_a_single_valued_fast_field() {
    let a = seg(&[("a", 1)], &[], vec![1], 1);
    let settings = IndexSettings { sort_by_field: Some(IndexSortByField { field: 0, order: Order::Asc }) };
    assert!(matches!(IndexMerger::open(schema(), settings, vec![a]), Err(MergeError::SchemaError)));
}

#[test]
fn facet_field_without_term_mapping_is_an_internal_error() {
    let facet_schema = Schema {
        fields: vec![FieldEntry { kind: FieldKind::HierarchicalFacet, indexed: false, positions: false, fieldnorms: false }],
    };
    let r = SegmentReader {
        max_doc: 1,
        alive_bitset: None,
        fields: vec![empty_field(1)],
        store: StoreReader { compressor: 1, docs: vec![vec![]], block_checkpoints: vec![1] },
    };
    let merger = IndexMerger::open(facet_schema, IndexSettings { sort_by_field: None }, vec![r]).unwrap();
    assert!(matches!(merger.write_fast_fields(&vec![None], &None), Err(MergeError::Internal)));
    let mut s = SegmentSerializer::new(1);
    assert_eq!(merger.write(&mut s), Err(MergeError::Internal));
}

#[test]
fn merge_reaching_the_document_limit_is_refused() {
    // Only the document counts are read before the limit is checked, so the
    // segments carry no field and no payload.
    let big = || SegmentReader {
        max_doc: 1 << 30,
        alive_bitset: None,
        fields: vec![],
        store: StoreReader { compressor: 1, docs: vec![], block_checkpoints: vec![] },
    };
    let no_fields = Schema { fields: vec![] };
    let r = IndexMerger::open(no_fields, IndexSettings { sort_by_field: None }, vec![big(), big()]);
    assert!(matches!(r, Err(MergeError::InvalidArgument)));
}

#[test]
fn store_running_out_is_data_corruption() {
    // A mapping that names the one document of a segment twice, which no merge builds.
    let a = seg(&[("a", 1)], &[], vec![1], 1);
    let merger = IndexMerger::open(schema(), IndexSettings { sort_by_field: None }, vec![a]).unwrap();
    let mut w = segment_merger::store::StoreWriter::new(1);
    let r = merger.write_storable_fields(&mut w, &Some(vec![(0, 0), (0, 0)]));
    assert_eq!(r, Err(MergeError::DataCorruption));
    let mut w2 = segment_merger::store::StoreWriter::new(1);
    assert_eq!(merger.write_storable_fields(&mut w2, &Some(vec![(0, 0)])), Ok(()));
    assert_eq!(w2.docs, vec![b"a".to_vec()]);
}

#[test]
fn open_block_is_closed_before_a_stacked_segment() {
    let small = seg(&[("s0", 1), ("s1", 2)], &[], vec![2], 1);
    let big_docs: Vec<(String, u64)> = (0..6).map(|i| (format!("b{}", i), i)).collect();
    let big_refs: Vec<(&str, u64)> = big_docs.iter().map(|(t, v)| (t.as_str(), *v)).collect();
    let big = seg(&big_refs, &[], vec![1; 6], 1);
    let deleted = seg(&big_refs, &[3], vec![1; 6], 1);
    let (n, s) = run(IndexSettings { sort_by_field: None }, vec![small, big, deleted]);
    assert_eq!(n, 13);
    // Two payloads re-encoded, then the six blocks as they are, then the segment
    // with a delete re-encoded into the last block.
    assert_eq!(s.store_writer.block_checkpoints, vec![2, 1, 1, 1, 1, 1, 1, 5]);
    assert_eq!(s.store_writer.pending, 0);
}

#[test]
fn readers_with_equal_least_values_keep_their_order() {
    let a = seg(&[("a0", 3), ("a1", 8)], &[], vec![2], 1);
    let b = seg(&[("b0", 1), ("b1", 2)], &[], vec![2], 1);
    let c = seg(&[("c0", 3), ("c1", 4)], &[], vec![2], 1);
    let sort = IndexSortByField { field: 1, order: Order::Asc };
    let out = IndexMerger::sort_readers_by_min_sort_field(&schema(), vec![a, b, c], &sort).unwrap();
    let firsts: Vec<Vec<u8>> = out.iter().map(|r| r.store.docs[0].clone()).collect();
    assert_eq!(firsts, vec![b"b0".to_vec(), b"a0".to_vec(), b"c0".to_vec()]);
    let desc = IndexSortByField { field: 1, order: Order::Desc };
    let a = seg(&[("a0", 3)], &[], vec![1], 1);
    let c = seg(&[("c0", 3)], &[], vec![1], 1);
    let out = IndexMerger::sort_readers_by_min_sort_field(&schema(), vec![a, c], &desc).unwrap();
    assert_eq!(out[0].store.docs[0], b"a0".to_vec());
}

#[test]
fn mapping_of_unsorted_segments_still_lists_each_live_document_once() {
    // Segments that are not sorted on the sort field: the mapping is still a bijection.
    let a = seg(&[("a0", 9), ("a1", 1), ("a2", 5)], &[1], vec![3], 1);
    let b = seg(&[("b0", 7), ("b1", 2)], &[], vec![2], 1);
    let merger = IndexMerger::open(schema(), sorted(Order::Asc), vec![a, b]).unwrap();
    let sort = IndexSortByField { field: 1, order: Order::Asc };
    let mut m = merger.generate_doc_id_mapping(&sort).unwrap();
    assert_eq!(m.len(), 4);
    m.sort();
    // Segment a (least value 1) is ordinal 0, with live docs 0 and 2; b is ordinal 1.
    assert_eq!(m, vec![(0, 0), (0, 1), (1, 1), (2, 0)]);
}
