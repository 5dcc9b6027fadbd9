use std::collections::BTreeMap;

use segment_merger::fastfield::{FastFieldColumn, MergedFastField};
use segment_merger::merger::{IndexMerger, SegmentSerializer};
use segment_merger::postings::{MergedFieldPostings, MergedTerm};
use segment_merger::schema::{
    Cardinality, FieldEntry, FieldKind, IndexSettings, IndexSortByField, MergeError, Order, Schema,
};
use segment_merger::segment::{FieldData, Posting, SegmentReader, StoreReader, TermPostings};

fn text_entry() -> FieldEntry {
    FieldEntry { kind: FieldKind::Text, indexed: true, positions: true, fieldnorms: true }
}

fn single_u64_entry(indexed: bool) -> FieldEntry {
    FieldEntry {
        kind: FieldKind::Numeric(Some(Cardinality::SingleValue)),
        indexed,
        positions: false,
        fieldnorms: false,
    }
}

fn multi_u64_entry(indexed: bool) -> FieldEntry {
    FieldEntry {
        kind: FieldKind::Numeric(Some(Cardinality::MultiValues)),
        indexed,
        positions: false,
        fieldnorms: false,
    }
}

fn empty_field(n: usize) -> FieldData {
    FieldData {
        fieldnorm_ids: vec![0; n],
        total_num_tokens: 0,
        terms: vec![],
        values: vec![vec![]; n],
        bytes: vec![vec![]; n],
    }
}

/// Builds the term dictionary of a field from the tokens of each document.
fn index_tokens(docs: &[Vec<Vec<u8>>]) -> Vec<TermPostings> {
    let mut dict: BTreeMap<Vec<u8>, Vec<Posting>> = BTreeMap::new();
    for (doc, tokens) in docs.iter().enumerate() {
        let mut per_term: BTreeMap<Vec<u8>, Vec<u32>> = BTreeMap::new();
        for (pos, tok) in tokens.iter().enumerate() {
            per_term.entry(tok.clone()).or_default().push(pos as u32);
        }
        for (tok, positions) in per_term {
            dict.entry(tok).or_default().push(Posting {
                doc: doc as u32,
                term_freq: positions.len() as u32,
                positions,
            });
        }
    }
    dict.into_iter().map(|(term, postings)| TermPostings { term, postings }).collect()
}

fn text_field(texts: &[&str]) -> FieldData {
    let tokens: Vec<Vec<Vec<u8>>> = texts
        .iter()
        .map(|t| t.split_whitespace().map(|w| w.as_bytes().to_vec()).collect())
        .collect();
    let n = texts.len();
    let mut field = empty_field(n);
    field.fieldnorm_ids = tokens.iter().map(|t| t.len().min(40) as u8).collect();
    field.total_num_tokens = tokens.iter().map(|t| t.len() as u64).sum();
    field.terms = index_tokens(&tokens);
    field
}

fn single_u64_field(vals: &[u64], indexed: bool) -> FieldData {
    let mut field = empty_field(vals.len());
    field.values = vals.iter().map(|v| vec![*v]).collect();
    if indexed {
        let tokens: Vec<Vec<Vec<u8>>> = vals.iter().map(|v| vec![v.to_be_bytes().to_vec()]).collect();
        field.terms = index_tokens(&tokens);
    }
    field
}

fn multi_u64_field(vals: &[Vec<u64>], indexed: bool) -> FieldData {
    let mut field = empty_field(vals.len());
    field.values = vals.to_vec();
    if indexed {
        let tokens: Vec<Vec<Vec<u8>>> =
            vals.iter().map(|vs| vs.iter().map(|v| v.to_be_bytes().to_vec()).collect()).collect();
        field.terms = index_tokens(&tokens);
    }
    field
}

fn bytes_field(vals: &[Vec<u8>]) -> FieldData {
    let mut field = empty_field(vals.len());
    field.bytes = vals.to_vec();
    field
}

fn segment(fields: Vec<FieldData>, payloads: Vec<Vec<u8>>, deleted: &[u32], blocks: Vec<u32>) -> SegmentReader {
    let max_doc = payloads.len() as u32;
    let alive_bitset = if deleted.is_empty() {
        None
    } else {
        Some((0..max_doc).map(|d| !deleted.contains(&d)).collect())
    };
    SegmentReader {
        max_doc,
        alive_bitset,
        fields,
        store: StoreReader { compressor: 1, docs: payloads, block_checkpoints: blocks },
    }
}

fn merge(schema: Schema, settings: IndexSettings, segments: Vec<SegmentReader>) -> (u32, SegmentSerializer) {
    let merger = IndexMerger::open(schema, settings, segments).expect("open failed");
    let mut serializer = SegmentSerializer::new(1);
    let n = merger.write(&mut serializer).expect("merge failed");
    (n, serializer)
}

fn no_sort() -> IndexSettings {
    IndexSettings { sort_by_field: None }
}

fn field_postings(s: &SegmentSerializer, field: usize) -> &MergedFieldPostings {
    s.postings.iter().find(|p| p.field == field).expect("field has postings")
}

fn term<'a>(p: &'a MergedFieldPostings, t: &[u8]) -> Option<&'a MergedTerm> {
    p.terms.iter().find(|m| m.term == t)
}

fn term_docs(s: &SegmentSerializer, field: usize, t: &[u8]) -> Vec<u32> {
    term(field_postings(s, field), t).map(|m| m.postings.iter().map(|p| p.doc).collect()).unwrap_or_default()
}

fn fast_column(s: &SegmentSerializer, field: usize) -> &FastFieldColumn {
    &s.fast_fields.iter().find(|c: &&MergedFastField| c.field == field).expect("fast field").column
}

fn single_values(s: &SegmentSerializer, field: usize) -> Vec<u64> {
    match fast_column(s, field) {
        FastFieldColumn::Single(c) => c.vals.clone(),
        _ => panic!("not a single-valued column"),
    }
}

fn multi_values(s: &SegmentSerializer, field: usize, doc: usize) -> Vec<u64> {
    match fast_column(s, field) {
        FastFieldColumn::Multi(c) => {
            let start = c.idx.vals[doc] as usize;
            let end = c.idx.vals[doc + 1] as usize;
            c.vals.vals[start..end].to_vec()
        }
        _ => panic!("not a multi-valued column"),
    }
}

fn bytes_values(s: &SegmentSerializer, field: usize, doc: usize) -> Vec<u8> {
    match fast_column(s, field) {
        FastFieldColumn::Bytes(c) => {
            let start = c.idx.vals[doc] as usize;
            let end = c.idx.vals[doc + 1] as usize;
            c.data[start..end].to_vec()
        }
        _ => panic!("not a bytes column"),
    }
}

fn no_deletes_schema() -> Schema {
    Schema {
        fields: vec![
            text_entry(),
            FieldEntry { kind: FieldKind::Numeric(None), indexed: true, positions: false, fieldnorms: false },
            single_u64_entry(false),
            FieldEntry { kind: FieldKind::Bytes { fast: true }, indexed: false, positions: false, fieldnorms: false },
        ],
    }
}

fn no_deletes_segment(docs: &[(&str, Option<u64>, u64)]) -> SegmentReader {
    let texts: Vec<&str> = docs.iter().map(|d| d.0).collect();
    let n = docs.len();
    let mut date = empty_field(n);
    let date_tokens: Vec<Vec<Vec<u8>>> =
        docs.iter().map(|d| d.1.map(|t| vec![t.to_be_bytes().to_vec()]).unwrap_or_default()).collect();
    date.terms = index_tokens(&date_tokens);
    let scores: Vec<u64> = docs.iter().map(|d| d.2).collect();
    let score_bytes: Vec<Vec<u8>> = docs.iter().map(|d| (d.2 as u32).to_be_bytes().to_vec()).collect();
    segment(
        vec![text_field(&texts), date, single_u64_field(&scores, false), bytes_field(&score_bytes)],
        texts.iter().map(|t| t.as_bytes().to_vec()).collect(),
        &[],
        vec![n as u32],
    )
}

#[test]
fn test_index_merger_no_deletes() {
    let curr_time: u64 = 1_600_000_000;
    let seg1 = no_deletes_segment(&[("af b", Some(curr_time), 3), ("a b c", None, 5), ("a b c d", None, 7)]);
    let seg2 = no_deletes_segment(&[("af b", Some(curr_time), 11), ("a b c g", None, 13)]);
    let (n, s) = merge(no_deletes_schema(), no_sort(), vec![seg1, seg2]);
    assert_eq!(n, 5);
    assert_eq!(term_docs(&s, 0, b"a"), vec![1, 2, 4]);
    assert_eq!(term_docs(&s, 0, b"af"), vec![0, 3]);
    assert_eq!(term_docs(&s, 0, b"g"), vec![4]);
    assert_eq!(term_docs(&s, 0, b"b"), vec![0, 1, 2, 3, 4]);
    assert_eq!(term_docs(&s, 1, &curr_time.to_be_bytes()), vec![0, 3]);
    let stored: Vec<&[u8]> = s.store_writer.docs.iter().map(|d| d.as_slice()).collect();
    assert_eq!(stored, vec![&b"af b"[..], b"a b c", b"a b c d", b"af b", b"a b c g"]);
    let scores = single_values(&s, 2);
    assert_eq!(scores, vec![3, 5, 7, 11, 13]);
    let a_docs = term_docs(&s, 0, b"a");
    let a_scores: Vec<u64> = a_docs.iter().map(|d| scores[*d as usize]).collect();
    assert_eq!(a_scores, vec![5, 7, 13]);
    let a_bytes: Vec<u8> = a_docs.iter().flat_map(|d| bytes_values(&s, 3, *d as usize)).collect();
    assert_eq!(a_bytes, vec![0, 0, 0, 5, 0, 0, 0, 7, 0, 0, 0, 13]);
}

#[test]
fn test_merge_multivalued_int_fields_simple() {
    let schema = Schema { fields: vec![multi_u64_entry(true)] };
    let seg = |vals: Vec<Vec<u64>>| {
        let n = vals.len();
        segment(vec![multi_u64_field(&vals, true)], vec![vec![]; n], &[], vec![n as u32])
    };
    let seg0 = seg(vec![vec![1, 2], vec![1, 2, 3], vec![4, 5], vec![1, 2], vec![1, 5], vec![3], vec![17]]);
    let seg1 = seg(vec![vec![28, 27], vec![1_000]]);
    let seg2 = seg(vec![vec![20]]);
    let (n, s) = merge(schema, no_sort(), vec![seg0, seg1, seg2]);
    assert_eq!(n, 10);
    let expected: Vec<Vec<u64>> = vec![
        vec![1, 2],
        vec![1, 2, 3],
        vec![4, 5],
        vec![1, 2],
        vec![1, 5],
        vec![3],
        vec![17],
        vec![28, 27],
        vec![1_000],
        vec![20],
    ];
    for (doc, vals) in expected.iter().enumerate() {
        assert_eq!(&multi_values(&s, 0, doc), vals);
    }
}

#[test]
fn test_merge_multivalued_int_fields_all_deleted() {
    let schema = Schema { fields: vec![multi_u64_entry(true)] };
    let seg = || segment(vec![multi_u64_field(&[vec![1]], true)], vec![vec![]], &[0], vec![1]);
    let (n, s) = merge(schema, no_sort(), vec![seg(), seg()]);
    assert_eq!(n, 0);
    assert!(field_postings(&s, 0).terms.is_empty());
    assert_eq!(multi_values_len(&s, 0), 0);
}

fn multi_values_len(s: &SegmentSerializer, field: usize) -> usize {
    match fast_column(s, field) {
        FastFieldColumn::Multi(c) => {
            assert_eq!(c.idx.vals, vec![0]);
            assert_eq!((c.vals.min_value, c.vals.max_value), (0, 0));
            c.vals.vals.len()
        }
        _ => panic!("not a multi-valued column"),
    }
}

#[test]
fn test_bug_merge() {
    // The delete of the term is not committed: the segments still hold both documents.
    let schema = Schema {
        fields: vec![FieldEntry { kind: FieldKind::Numeric(None), indexed: true, positions: false, fieldnorms: false }],
    };
    let seg = || {
        let mut f = empty_field(1);
        f.terms = index_tokens(&[vec![1u64.to_be_bytes().to_vec()]]);
        segment(vec![f], vec![vec![]], &[], vec![1])
    };
    let (n, s) = merge(schema, no_sort(), vec![seg(), seg()]);
    assert_eq!(n, 2);
    assert_eq!(term_docs(&s, 0, &1u64.to_be_bytes()), vec![0, 1]);
}

#[test]
fn merges_f64_fast_fields_correctly() {
    let schema = Schema {
        fields: vec![
            FieldEntry { kind: FieldKind::Numeric(Some(Cardinality::SingleValue)), indexed: false, positions: false, fieldnorms: false },
            multi_u64_entry(false),
        ],
    };
    let single = 42.0f64.to_bits();
    let multi = vec![0.24f64.to_bits(), 0.27f64.to_bits()];
    let mut segments = Vec::new();
    let mut left = 100usize;
    while left > 0 {
        let n = left.min(5);
        segments.push(segment(
            vec![single_u64_field(&vec![single; n], false), multi_u64_field(&vec![multi.clone(); n], false)],
            vec![vec![]; n],
            &[],
            vec![n as u32],
        ));
        left -= n;
    }
    let (n, s) = merge(schema, no_sort(), segments);
    assert_eq!(n, 100);
    let singles = single_values(&s, 0);
    assert!(singles.iter().all(|v| f64::from_bits(*v) == 42.0));
    for doc in 0..100 {
        let vals: Vec<f64> = multi_values(&s, 1, doc).into_iter().map(f64::from_bits).collect();
        assert_eq!(vals, vec![0.24, 0.27]);
    }
}

/// Reads a merged segment back as an input segment, with some documents deleted.
fn reader_from_output(schema: &Schema, s: &SegmentSerializer, n: u32, deleted: &[u32]) -> SegmentReader {
    let n_docs = n as usize;
    let mut fields = Vec::new();
    for (f, entry) in schema.fields.iter().enumerate() {
        let mut field = empty_field(n_docs);
        if let Some(norms) = s.fieldnorms.iter().find(|x| x.field == f) {
            field.fieldnorm_ids = norms.data.clone();
        }
        if let Some(p) = s.postings.iter().find(|x| x.field == f) {
            field.total_num_tokens = p.total_num_tokens;
            field.terms = p
                .terms
                .iter()
                .map(|t| TermPostings {
                    term: t.term.clone(),
                    postings: t
                        .postings
                        .iter()
                        .map(|d| {
                            let mut acc = 0u32;
                            let positions = d.position_deltas.iter().map(|x| {
                                acc += x;
                                acc
                            });
                            Posting { doc: d.doc, term_freq: d.term_freq, positions: positions.collect() }
                        })
                        .collect(),
                })
                .collect();
        }
        if let Some(c) = s.fast_fields.iter().find(|x| x.field == f) {
            match &c.column {
                FastFieldColumn::Single(col) => field.values = col.vals.iter().map(|v| vec![*v]).collect(),
                FastFieldColumn::Multi(_) => field.values = (0..n_docs).map(|d| multi_values(s, f, d)).collect(),
                FastFieldColumn::Bytes(_) => field.bytes = (0..n_docs).map(|d| bytes_values(s, f, d)).collect(),
            }
        }
        let _ = entry;
        fields.push(field);
    }
    segment(fields, s.store_writer.docs.clone(), deleted, s.store_writer.block_checkpoints.clone())
}

fn deletes_schema() -> Schema {
    Schema {
        fields: vec![
            text_entry(),
            single_u64_entry(false),
            FieldEntry { kind: FieldKind::Bytes { fast: true }, indexed: false, positions: false, fieldnorms: false },
        ],
    }
}

fn deletes_segment(docs: &[(&str, u64, Vec<u8>)], deleted: &[u32]) -> SegmentReader {
    let texts: Vec<&str> = docs.iter().map(|d| d.0).collect();
    let scores: Vec<u64> = docs.iter().map(|d| d.1).collect();
    let bytes: Vec<Vec<u8>> = docs.iter().map(|d| d.2.clone()).collect();
    segment(
        vec![text_field(&texts), single_u64_field(&scores, false), bytes_field(&bytes)],
        texts.iter().map(|t| t.as_bytes().to_vec()).collect(),
        deleted,
        vec![docs.len() as u32],
    )
}

fn scores_of_term(s: &SegmentSerializer, t: &[u8]) -> Vec<u64> {
    let scores = single_values(s, 1);
    term_docs(s, 0, t)
        .iter()
        .map(|d| {
            let b = bytes_values(s, 2, *d as usize);
            assert_eq!(scores[*d as usize] as u32, u32::from_be_bytes([b[0], b[1], b[2], b[3]]));
            scores[*d as usize]
        })
        .collect()
}

#[test]
fn test_index_merger_with_deletes() {
    let seg1 = deletes_segment(
        &[("a b d", 1, vec![0, 0, 0, 1]), ("b c", 2, vec![0, 0, 0, 2]), ("c d", 3, vec![0, 0, 0, 3])],
        &[0, 1],
    );
    let seg2 = deletes_segment(
        &[
            ("a d e", 4_000, vec![0, 0, 0, 4]),
            ("e f", 5_000, vec![0, 0, 0, 5]),
            ("f g", 6_000, vec![0, 0, 23, 112]),
            ("g h", 7_000, vec![0, 0, 27, 88]),
        ],
        &[0, 1],
    );
    assert_eq!(seg1.num_docs(), 1);
    assert_eq!(seg2.num_docs(), 2);
    let empty_vec = Vec::<u64>::new();
    let (n, s) = merge(deletes_schema(), no_sort(), vec![seg1, seg2]);
    assert_eq!(n, 3);
    assert_eq!(scores_of_term(&s, b"a"), empty_vec);
    assert_eq!(scores_of_term(&s, b"b"), empty_vec);
    assert_eq!(scores_of_term(&s, b"c"), vec![3]);
    assert_eq!(scores_of_term(&s, b"d"), vec![3]);
    assert_eq!(scores_of_term(&s, b"e"), empty_vec);
    assert_eq!(scores_of_term(&s, b"f"), vec![6_000]);
    assert_eq!(scores_of_term(&s, b"g"), vec![6_000, 7_000]);
    match fast_column(&s, 1) {
        FastFieldColumn::Single(c) => assert_eq!((c.min_value, c.max_value), (3, 7000)),
        _ => panic!("not a single-valued column"),
    }
    // A commit with only deletes, then a merge of the one segment.
    let schema = deletes_schema();
    let merged = reader_from_output(&schema, &s, n, &[0]);
    let (n2, s2) = merge(schema, no_sort(), vec![merged]);
    assert_eq!(n2, 2);
    assert_eq!(scores_of_term(&s2, b"c"), empty_vec);
    assert_eq!(scores_of_term(&s2, b"g"), vec![6_000, 7_000]);
    match fast_column(&s2, 1) {
        FastFieldColumn::Single(c) => assert_eq!((c.min_value, c.max_value), (6000, 7000)),
        _ => panic!("not a single-valued column"),
    }
}

fn facet_schema() -> Schema {
    Schema {
        fields: vec![
            FieldEntry { kind: FieldKind::HierarchicalFacet, indexed: true, positions: false, fieldnorms: false },
            single_u64_entry(true),
        ],
    }
}

/// A facet segment: the dictionary holds each facet and its ancestors; a document
/// lists the ordinals of its own facets.
fn facet_segment(docs: &[(Vec<&str>, u64)], deleted: &[u32]) -> SegmentReader {
    let n = docs.len();
    let tokens: Vec<Vec<Vec<u8>>> = docs
        .iter()
        .map(|(facets, _)| {
            let mut all: Vec<Vec<u8>> = Vec::new();
            for f in facets {
                let parts: Vec<&str> = f.split('/').filter(|p| !p.is_empty()).collect();
                for k in 1..=parts.len() {
                    let path = format!("/{}", parts[..k].join("/")).into_bytes();
                    if !all.contains(&path) {
                        all.push(path);
                    }
                }
            }
            all
        })
        .collect();
    let terms = index_tokens(&tokens);
    let mut facet = empty_field(n);
    facet.values = docs
        .iter()
        .map(|(facets, _)| {
            facets.iter().map(|f| terms.iter().position(|t| t.term == f.as_bytes()).unwrap() as u64).collect()
        })
        .collect();
    facet.terms = terms;
    let ints: Vec<u64> = docs.iter().map(|d| d.1).collect();
    segment(vec![facet, single_u64_field(&ints, true)], vec![vec![]; n], deleted, vec![n as u32])
}

/// Facet counts under `/top`, as a facet collector gives them.
fn top_facet_counts(s: &SegmentSerializer, n: u32) -> Vec<(String, u64)> {
    let terms = &field_postings(s, 0).terms;
    let mut counts: BTreeMap<String, u64> = BTreeMap::new();
    for doc in 0..n as usize {
        let mut seen: Vec<String> = Vec::new();
        for ord in multi_values(s, 0, doc) {
            let path = String::from_utf8(terms[ord as usize].term.clone()).unwrap();
            let parts: Vec<&str> = path.split('/').filter(|p| !p.is_empty()).collect();
            let top = format!("/{}/{}", parts[0], parts[1]);
            if !seen.contains(&top) {
                seen.push(top);
            }
        }
        for top in seen {
            *counts.entry(top).or_default() += 1;
        }
    }
    counts.into_iter().collect()
}

fn test_merge_facets(index_settings: Option<IndexSettings>, force_segment_value_overlap: bool) {
    let settings = index_settings.unwrap_or(IndexSettings { sort_by_field: None });
    let mut segs: Vec<Vec<(Vec<&str>, u64)>> = Vec::new();
    let mut int_val = 0u64;
    let mut next = |v: &mut u64| {
        let x = *v;
        *v += 1;
        x
    };
    let mut seg = vec![
        (vec!["/top/a/firstdoc", "/top/b"], next(&mut int_val)),
        (vec!["/top/a/firstdoc", "/top/b", "/top/c"], next(&mut int_val)),
        (vec!["/top/a", "/top/b"], next(&mut int_val)),
        (vec!["/top/a"], next(&mut int_val)),
        (vec!["/top/b", "/top/d"], next(&mut int_val)),
    ];
    if force_segment_value_overlap {
        seg.push((vec!["/top/d"], 0));
        seg.push((vec!["/top/e"], 10));
        segs.push(seg);
        seg = vec![(vec!["/top/a"], 5)];
    } else {
        seg.push((vec!["/top/d"], next(&mut int_val)));
        seg.push((vec!["/top/e"], next(&mut int_val)));
        segs.push(seg);
        seg = vec![(vec!["/top/a"], next(&mut int_val))];
    }
    seg.push((vec!["/top/b"], next(&mut int_val)));
    seg.push((vec!["/top/c"], next(&mut int_val)));
    segs.push(seg);
    segs.push(vec![(vec!["/top/e", "/top/f"], next(&mut int_val))]);
    // Segments of a sorted index are sorted on the sort field.
    if let Some(sort) = settings.sort_by_field {
        for seg in segs.iter_mut() {
            seg.sort_by(|a, b| match sort.order {
                Order::Asc => a.1.cmp(&b.1),
                Order::Desc => b.1.cmp(&a.1),
            });
        }
    }
    let readers: Vec<SegmentReader> = segs.iter().map(|s| facet_segment(s, &[])).collect();
    let expected = vec![
        ("/top/a".to_string(), 5),
        ("/top/b".to_string(), 5),
        ("/top/c".to_string(), 2),
        ("/top/d".to_string(), 2),
        ("/top/e".to_string(), 2),
        ("/top/f".to_string(), 1),
    ];
    let (n, s) = merge(facet_schema(), settings, readers);
    assert_eq!(n, 11);
    assert_eq!(top_facet_counts(&s, n), expected);
    if let Some(sort) = settings.sort_by_field {
        let ints = single_values(&s, 1);
        for w in ints.windows(2) {
            match sort.order {
                Order::Asc => assert!(w[0] <= w[1]),
                Order::Desc => assert!(w[0] >= w[1]),
            }
        }
    }
    // Deleting the documents with `/top/a/firstdoc`, then merging again.
    let firstdoc = term_docs(&s, 0, b"/top/a/firstdoc");
    assert_eq!(firstdoc.len(), 2);
    let schema = facet_schema();
    let again = reader_from_output(&schema, &s, n, &firstdoc);
    let (n2, s2) = merge(schema, settings, vec![again]);
    assert_eq!(n2, 9);
    assert_eq!(
        top_facet_counts(&s2, n2),
        vec![
            ("/top/a".to_string(), 3),
            ("/top/b".to_string(), 3),
            ("/top/c".to_string(), 1),
            ("/top/d".to_string(), 2),
            ("/top/e".to_string(), 2),
            ("/top/f".to_string(), 1),
        ]
    );
    assert!(term(field_postings(&s2, 0), b"/top/a/firstdoc").is_none());
}

fn sort_by_intval_desc() -> IndexSettings {
    IndexSettings { sort_by_field: Some(IndexSortByField { field: 1, order: Order::Desc }) }
}

#[test]
fn test_merge_facets_sort_none() {
    test_merge_facets(None, true)
}

#[test]
fn test_merge_facets_sort_asc() {
    test_merge_facets(Some(sort_by_intval_desc()), true);
    test_merge_facets(Some(sort_by_intval_desc()), false);
}

#[test]
fn test_merge_facets_sort_desc() {
    test_merge_facets(Some(sort_by_intval_desc()), true);
    test_merge_facets(Some(sort_by_intval_desc()), false);
}

#[test]
fn test_merged_index_has_blockwand() {
    let schema = Schema { fields: vec![text_entry()] };
    let seg = |n: usize| {
        let texts = vec!["hello happy tax payer"; n];
        segment(vec![text_field(&texts)], vec![vec![]; n], &[], vec![n as u32])
    };
    let (n, s) = merge(schema, no_sort(), vec![seg(62), seg(81)]);
    assert_eq!(n, 143);
    let happy = term(field_postings(&s, 0), b"happy").unwrap();
    assert_eq!(happy.doc_freq, 143);
    let docs: Vec<u32> = happy.postings.iter().map(|p| p.doc).collect();
    assert_eq!(docs, (0..143).collect::<Vec<u32>>());
    assert!(happy.postings.iter().all(|p| p.term_freq == 1 && p.position_deltas == vec![1]));
    // The block-max score depends on the fieldnorms, which are carried over as they are.
    assert!(s.fieldnorms[0].data.iter().all(|id| *id == 4));
    assert_eq!(field_postings(&s, 0).total_num_tokens, 143 * 4);
}
