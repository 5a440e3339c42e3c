use fbhash::chunker::bytes_to_chunks;
use fbhash::config::{Configuration, OutputFormat};
use fbhash::similarities::{
    compute_document_frequencies, compute_file_frequencies, verify_consistency, DocumentCollection,
};
use fbhash::tables::FrequencyMap;
use std::collections::BTreeMap;

const YES_EVEN: u64 = 33279275454869446;
const YES_ODD: u64 = 2879926931474365;

fn yes_file() -> Vec<u8> {
    let mut v = Vec::new();
    for _ in 0..256 {
        v.push(b'y');
        v.push(b'\n');
    }
    v
}

fn construct_expected_vec() -> Vec<u64> {
    (0..506)
        .map(|i| if i % 2 == 0 { YES_EVEN } else { YES_ODD })
        .collect()
}

fn three_file_corpus() -> DocumentCollection {
    let mut c = DocumentCollection::new();
    assert!(c.add_file("testdata/testfile-zero.bin", &[0u8; 512]).is_some());
    assert!(c.add_file("testdata/testfile-yes.bin", &yes_file()).is_some());
    assert!(c.add_file("testdata/testfile-zero-length", &[]).is_some());
    c
}

#[test]
fn similarities_test_compute_document_frequencies() {
    let chunks = bytes_to_chunks(&yes_file());
    let m = compute_file_frequencies(&chunks);

    assert_eq!(m.is_empty(), false);
    assert_eq!(m.len(), 2);
    assert_eq!(m.count(2879926931474365), 253);
    assert_eq!(m.count(33279275454869446), 253);
}

#[test]
fn document_frequencies_are_ordered() {
    let chunks = bytes_to_chunks(&yes_file());
    let m = compute_document_frequencies(&chunks);
    let entries: Vec<(u64, usize)> = m.into_iter().collect();
    assert_eq!(entries, vec![(YES_ODD, 253), (YES_EVEN, 253)]);
}

#[test]
fn frequency_map_counts() {
    let mut m = FrequencyMap::new();
    assert!(m.is_empty());
    m.increment(4);
    m.increment(4);
    m.increment(9);
    assert_eq!(m.count(4), 2);
    assert_eq!(m.count(9), 1);
    assert_eq!(m.count(5), 0);
    assert_eq!(m.len(), 2);
    let mut entries = m.entries();
    entries.sort();
    assert_eq!(entries, vec![(4, 2), (9, 1)]);
}

#[test]
fn similarities_test_compute_document_scores() {
    let chunks = bytes_to_chunks(&yes_file());
    let m = compute_document_frequencies(&chunks);
    let scores: BTreeMap<u64, f64> = m.iter().map(|(k, v)| (*k, 1.0 + (*v as f64).log10())).collect();

    assert_eq!(scores.is_empty(), false);
    assert_eq!(scores.len(), 2);
    match scores.get(&2879926931474365) {
        Some(score) => {
            let expected_score: f64 = 1.0 + (253.0_f64).log10();
            assert!((*score - expected_score).abs() <= 0.001)
        }
        None => panic!("This value should exist"),
    }
}

#[test]
fn similarities_test_document_collection() {
    let name = String::from("testdata/testfile-yes.bin");
    let data = yes_file();
    let mut document_collection = DocumentCollection::new();
    let result = document_collection.add_file(&name, &data);
    let expected_vec = construct_expected_vec();
    assert!(result.is_some(), "We should get a document back.");
    let (chunks, frequencies) = result.unwrap();
    assert_eq!(chunks, expected_vec);
    assert_eq!(frequencies.count(YES_EVEN), 253);
    assert!(document_collection.exists_file(&name));
    let again_result = document_collection.add_file(&name, &data);
    assert!(again_result.is_none(), "We should get the option back.");
    assert!(!document_collection.chunk_entries().is_empty());
    let doc_vector = document_collection.compute_document_terms(&bytes_to_chunks(&data));
    assert_eq!(doc_vector.len(), 2);
}

#[test]
fn two_file_corpus_counts() {
    let mut c = DocumentCollection::new();
    c.add_file("testdata/testfile-yes.bin", &yes_file());
    c.add_file("testdata/testfile-zero.bin", &[0u8; 512]);
    assert_eq!(c.chunk_entries(), vec![(0, 506), (YES_ODD, 253), (YES_EVEN, 253)]);
    assert_eq!(c.number_of_files(), 2);
}

#[test]
fn three_file_corpus_counts() {
    let c = three_file_corpus();
    // The empty file adds one more occurrence of the all-zero chunk.
    assert_eq!(c.chunk_entries(), vec![(0, 507), (YES_ODD, 253), (YES_EVEN, 253)]);
    let mut files = c.get_files();
    files.sort();
    assert_eq!(
        files,
        vec![
            "testdata/testfile-yes.bin".to_string(),
            "testdata/testfile-zero-length".to_string(),
            "testdata/testfile-zero.bin".to_string(),
        ]
    );
    assert_eq!(c.number_of_files(), 3);
}

#[test]
fn yes_digest_against_three_file_corpus() {
    let c = three_file_corpus();
    let terms = c.compute_document_terms(&bytes_to_chunks(&yes_file()));
    assert_eq!(terms.len(), 2);
    assert_eq!(terms[0].chunk, YES_ODD);
    assert_eq!(terms[1].chunk, YES_EVEN);
    for t in &terms {
        assert_eq!((t.frequency, t.count, t.total), (253, 253, 3));
        let w = (t.total as f64 / t.count as f64).log10() * (1.0 + t.frequency as f64).log10();
        assert!((w - (3.0_f64 / 253.0).log10() * 254.0_f64.log10()).abs() < 1e-15);
        assert!((w - (-4.631707974159031)).abs() < 1e-12);
    }
}

#[test]
fn yes_digest_against_yes_only_corpus() {
    let mut c = DocumentCollection::new();
    c.add_file("testdata/testfile-yes.bin", &yes_file());
    let terms = c.compute_document_terms(&bytes_to_chunks(&yes_file()));
    assert_eq!(terms.len(), 2);
    for t in &terms {
        assert_eq!((t.frequency, t.count, t.total), (253, 253, 2));
        let w = (t.total as f64 / t.count as f64).log10() * (1.0 + t.frequency as f64).log10();
        assert!((w - (-5.055178171138189)).abs() < 1e-12);
    }
}

#[test]
fn terms_skip_unknown_chunks_and_ascend() {
    let c = three_file_corpus();
    let terms = c.compute_document_terms(&[7, YES_EVEN, 0, YES_EVEN, 0, 0]);
    let chunks: Vec<u64> = terms.iter().map(|t| t.chunk).collect();
    assert_eq!(chunks, vec![0, YES_EVEN]);
    assert_eq!(terms[0].frequency, 3);
    assert_eq!(terms[0].count, 507);
    assert_eq!(terms[1].frequency, 2);
    assert!(c.compute_document_terms(&[]).is_empty());
}

#[test]
fn chunk_term_cases() {
    let mut f = BTreeMap::new();
    f.insert(5u64, 0usize);
    f.insert(6u64, 2usize);
    let c = DocumentCollection::from_parts(&["a".to_string()], f);
    assert!(c.chunk_term(6, 0).is_none());
    assert!(c.chunk_term(5, 1).is_none());
    assert!(c.chunk_term(9, 1).is_none());
    let t = c.chunk_term(6, 4).unwrap();
    assert_eq!((t.chunk, t.frequency, t.count, t.total), (6, 4, 2, 2));
}

#[test]
fn update_collection_merges_counts_and_names() {
    let mut c = DocumentCollection::new();
    let f = compute_file_frequencies(&[3, 1, 3, 3, 1, 3]);
    assert_eq!(c.update_collection(&f, &["x".to_string()]), 2);
    let g = compute_file_frequencies(&[9, 3]);
    assert_eq!(c.update_collection(&g, &["y".to_string(), "x".to_string()]), 3);
    assert_eq!(c.chunk_entries(), vec![(1, 2), (3, 5), (9, 1)]);
    assert_eq!(c.number_of_files(), 2);
    assert!(c.exists_file("x"));
    assert!(c.exists_file("y"));
    assert!(!c.exists_file("z"));
}

#[test]
fn fits_detects_overflow() {
    let mut f = BTreeMap::new();
    f.insert(1u64, usize::MAX - 1);
    let c = DocumentCollection::from_parts(&[], f);
    assert!(c.fits(&compute_file_frequencies(&[1])));
    assert!(!c.fits(&compute_file_frequencies(&[1, 1])));
    assert!(c.fits(&compute_file_frequencies(&[2, 2, 2])));
    assert!(c.fits(&FrequencyMap::new()));
}

#[test]
fn extend_and_copy() {
    let mut a = DocumentCollection::new();
    a.add_file("a", &[1, 2, 3]);
    let mut b = DocumentCollection::new();
    b.add_file("b", &[1, 2, 3]);
    b.add_file("a", &[0u8; 8]);
    a.extend(&b);
    assert_eq!(a.number_of_files(), 2);
    let p = direct(&[1, 2, 3, 0, 0, 0, 0]);
    let mut expected = vec![(0u64, 2usize), (p, 2usize)];
    expected.sort();
    assert_eq!(a.chunk_entries(), expected);
    let copy = a.copy();
    assert_eq!(copy.chunk_entries(), a.chunk_entries());
    assert_eq!(copy.number_of_files(), 2);
}

fn direct(w: &[u8]) -> u64 {
    let mut h: u128 = 0;
    for b in w {
        h = h * 255 + *b as u128;
    }
    (h % 801385653117583579) as u64
}

#[test]
fn from_parts_rebuilds_a_model() {
    let c = three_file_corpus();
    let counts: BTreeMap<u64, usize> = c.chunk_entries().into_iter().collect();
    let rebuilt = DocumentCollection::from_parts(&c.get_files(), counts);
    assert_eq!(rebuilt.chunk_entries(), c.chunk_entries());
    assert_eq!(rebuilt.get_files(), c.get_files());
    assert!(rebuilt == c);
    let mut reordered = c.get_files();
    reordered.reverse();
    let counts: BTreeMap<u64, usize> = c.chunk_entries().into_iter().collect();
    assert!(DocumentCollection::from_parts(&reordered, counts.clone()) == c);
    let mut fewer = reordered.clone();
    fewer.pop();
    assert!(DocumentCollection::from_parts(&fewer, counts.clone()) != c);
    let mut changed = counts.clone();
    changed.insert(0, 1);
    assert!(DocumentCollection::from_parts(&reordered, changed) != c);
    let dup = DocumentCollection::from_parts(&["a".to_string(), "a".to_string()], BTreeMap::new());
    assert_eq!(dup.number_of_files(), 1);
}

#[test]
fn consistency_check() {
    let c = three_file_corpus();
    let mut docs = c.get_files();
    docs.reverse();
    assert!(verify_consistency(&c, &docs));
    let mut other = DocumentCollection::new();
    other.add_file("testdata/testfile-yes.bin", &yes_file());
    assert!(!verify_consistency(&other, &docs));
    assert!(!verify_consistency(&c, &["testdata/testfile-yes.bin".to_string()]));
    docs.push("extra".to_string());
    assert!(!verify_consistency(&c, &docs));
    assert!(verify_consistency(&DocumentCollection::new(), &[]));
}

#[test]
fn configuration_new() {
    let c = Configuration::new(OutputFormat::Binary, true);
    assert_eq!(c.output_format, OutputFormat::Binary);
    assert!(c.quiet);
}
