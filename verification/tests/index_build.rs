use ngram_index::builder::{add_segments, build_index, sort_segments, write_indices, Segment};
use ngram_index::search::to_u32;

fn corpus(lines: &[&str]) -> Vec<u8> {
    lines.join("\n").into_bytes()
}

fn key12(s: &str) -> [u8; 12] {
    let mut k = [0u8; 12];
    for (i, &b) in s.as_bytes().iter().take(12).enumerate() {
        k[i] = b;
    }
    k
}

fn be32(x: u32) -> [u8; 4] {
    [(x >> 24) as u8, (x >> 16) as u8, (x >> 8) as u8, x as u8]
}

#[test]
fn build_is_deterministic() {
    let c1 = corpus(&["same pattern\tx", "same shape\ty"]);
    let c2 = corpus(&["same pattern\tx", "same shape\ty"]);
    let (k1, p1) = build_index(&c1);
    let (k2, p2) = build_index(&c2);
    assert_eq!(k1, k2);
    assert_eq!(p1, p2);
}

#[test]
fn build_small_corpus_exact_layout() {
    // Lines "ab" (offset 0, length 2) and "cd" (offset 3, length 2) yield
    // four segments whose keys sort as: "ab", "b", "cd", "d".
    let c = corpus(&["ab", "cd"]);
    let (ngram, index) = build_index(&c);
    let mut expected_keys = Vec::new();
    for k in ["ab", "b", "cd", "d"] {
        expected_keys.extend_from_slice(&key12(k));
    }
    assert_eq!(ngram, expected_keys);
    let mut expected_payload = Vec::new();
    for (off, len) in [(0u32, 2u32), (0, 2), (3, 2), (3, 2)] {
        expected_payload.extend_from_slice(&be32(off));
        expected_payload.extend_from_slice(&be32(len));
    }
    assert_eq!(index, expected_payload);
}

#[test]
fn build_dedups_exact_duplicates() {
    // A line of repeated bytes produces identical (key, offset, length)
    // tuples only when the key windows coincide; "aa" gives keys "aa" and
    // "a", distinct, while two equal lines at different offsets stay
    // distinct entries.
    let c = corpus(&["aa"]);
    let (ngram, index) = build_index(&c);
    assert_eq!(ngram.len(), 2 * 12);
    assert_eq!(index.len(), 2 * 8);
    let mut expected_keys = Vec::new();
    for k in ["a", "aa"] {
        expected_keys.extend_from_slice(&key12(k));
    }
    assert_eq!(ngram, expected_keys);
}

#[test]
fn empty_corpus_builds_empty_index() {
    let c: Vec<u8> = Vec::new();
    let (ngram, index) = build_index(&c);
    assert!(ngram.is_empty());
    assert!(index.is_empty());
}

#[test]
fn add_segments_emits_one_segment_per_byte() {
    let mut words: Vec<Segment> = Vec::new();
    let line = b"abcdefghijklmno".to_vec();
    add_segments(&mut words, &line, 7);
    assert_eq!(words.len(), 15);
    assert_eq!(words[0].key, key12("abcdefghijkl"));
    assert_eq!(words[3].key, key12("defghijklmno"));
    // Near the end the key is zero-padded.
    assert_eq!(words[14].key, key12("o"));
    for w in &words {
        assert_eq!(w.offset, 7);
        assert_eq!(w.length, 15);
    }
}

#[test]
fn sort_and_serialize_round() {
    let mut words: Vec<Segment> = Vec::new();
    add_segments(&mut words, &b"ba".to_vec(), 0);
    let sorted = sort_segments(words);
    assert_eq!(sorted[0].key, key12("a"));
    assert_eq!(sorted[1].key, key12("ba"));
    let (ngram, index) = write_indices(&sorted);
    assert_eq!(&ngram[0..12], &key12("a"));
    assert_eq!(&index[0..8], &[0, 0, 0, 0, 0, 0, 0, 2]);
}

#[test]
fn to_u32_reads_big_endian() {
    assert_eq!(to_u32(&[0x12, 0x34, 0x56, 0x78]), 0x1234_5678);
    assert_eq!(to_u32(&[0, 0, 0, 0]), 0);
    assert_eq!(to_u32(&[0xff, 0xff, 0xff, 0xff]), u32::MAX);
}

#[test]
fn built_key_file_is_sorted() {
    let c = corpus(&["same pattern\tx", "same shape\ty", "isomorphism\tz"]);
    let (ngram, _) = build_index(&c);
    assert!(ngram_index::locate::is_sorted_keyfile(&ngram));
}

#[test]
fn unsorted_key_file_is_detected() {
    let mut ngram = Vec::new();
    ngram.extend_from_slice(&key12("b"));
    ngram.extend_from_slice(&key12("a"));
    assert!(!ngram_index::locate::is_sorted_keyfile(&ngram));
    // A size that does not fit the stride is refused too.
    assert!(!ngram_index::locate::is_sorted_keyfile(&vec![0u8; 13]));
}
