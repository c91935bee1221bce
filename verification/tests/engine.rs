use ngram_index::builder::build_index;
use ngram_index::locate::{limit_left, limit_right, make_search_key};
use ngram_index::search::{load, load_then_filter, ngram_search, SearchError};

fn corpus(lines: &[&str]) -> Vec<u8> {
    lines.join("\n").into_bytes()
}

fn q(s: &str) -> Vec<u8> {
    s.as_bytes().to_vec()
}

/// A first line whose segments sort below every printable key, so that no
/// printable query's matching range starts at the clamped first block.
const SENTINEL: &str = "\u{1}\u{1}\u{1}\u{1}";

#[test]
fn empty_query_returns_nothing() {
    let c = corpus(&[SENTINEL, "alpha\tone", "beta\ttwo"]);
    let (ngram, index) = build_index(&c);
    let r = ngram_search(&q(""), &ngram, &index).unwrap();
    assert!(r.is_empty());
}

#[test]
fn absent_query_returns_nothing() {
    let c = corpus(&[SENTINEL, "alpha\tone", "beta\ttwo"]);
    let (ngram, index) = build_index(&c);
    let pairs = ngram_search(&q("zzz"), &ngram, &index).unwrap();
    let hits = load_then_filter(&q("zzz"), &pairs, &c).unwrap();
    assert!(hits.is_empty());
}

#[test]
fn absent_multibyte_query_returns_nothing() {
    let c = corpus(&[SENTINEL, "alpha\tone", "beta\ttwo"]);
    let (ngram, index) = build_index(&c);
    let pairs = ngram_search(&q("\u{1F980}"), &ngram, &index).unwrap();
    let hits = load_then_filter(&q("\u{1F980}"), &pairs, &c).unwrap();
    assert!(hits.is_empty());
}

#[test]
fn round_trip_every_substring() {
    // Every substring of at most twelve bytes of every line must lead back
    // to that line's own (offset, length) record.
    let lines = ["alpha\tone", "beta\ttwo spaces", "gamma\tthree"];
    let c = corpus(&[SENTINEL, lines[0], lines[1], lines[2]]);
    let (ngram, index) = build_index(&c);
    let mut offset = SENTINEL.len() as u32 + 1;
    for line in lines {
        let len = line.len() as u32;
        let bytes = line.as_bytes();
        for start in 0..bytes.len() {
            for end in (start + 1)..=usize::min(start + 12, bytes.len()) {
                let query = bytes[start..end].to_vec();
                let pairs = ngram_search(&query, &ngram, &index).unwrap();
                assert!(
                    pairs.contains(&(offset, len)),
                    "query {:?} missed line at offset {}",
                    String::from_utf8_lossy(&query),
                    offset
                );
                let hits = load_then_filter(&query, &pairs, &c).unwrap();
                assert!(hits.iter().any(|h| h == bytes));
            }
        }
        offset += len + 1;
    }
}

#[test]
fn queries_longer_than_key_width_still_verified() {
    // A 16-byte query matches on the first 12 bytes at the index, and the
    // containment filter decides the rest.
    let long_a = "aaaaaaaaaaaabcde\tx";
    let long_b = "aaaaaaaaaaaafghi\ty";
    let c = corpus(&[SENTINEL, long_a, long_b]);
    let (ngram, index) = build_index(&c);
    let query = q("aaaaaaaaaaaabc");
    let pairs = ngram_search(&query, &ngram, &index).unwrap();
    // Both lines share the 12-byte prefix, so both are candidates.
    assert_eq!(pairs.len(), 2);
    let hits = load_then_filter(&query, &pairs, &c).unwrap();
    assert_eq!(hits.len(), 1);
    assert_eq!(hits[0], long_a.as_bytes());
}

#[test]
fn cap_keeps_smallest_candidates() {
    // 10001 one-byte lines "a": every one matches the query "a". The first
    // block of the key file is clamped away, and the remaining 10000
    // candidates are cut to the smallest 9999 by (offset, length).
    let n = 10001usize;
    let lines: Vec<&str> = std::iter::repeat("a").take(n).collect();
    let c = corpus(&lines);
    let (ngram, index) = build_index(&c);
    let pairs = ngram_search(&q("a"), &ngram, &index).unwrap();
    assert_eq!(pairs.len(), 9999);
    for (i, &(off, len)) in pairs.iter().enumerate() {
        assert_eq!(len, 1);
        assert_eq!(off as usize, 2 * (i + 1));
    }
}

#[test]
fn scenario_dictionary_lookup() {
    // A dictionary-shaped corpus with multibyte headwords: the query finds
    // exactly the lines containing it, and retrieval hands back the whole
    // lines.
    let c = corpus(&[
        SENTINEL,
        "同型\tisomorphism",
        "同型写像\tisomorphic mapping",
        "相同\thomology",
        "型\ttype; mold",
    ]);
    let (ngram, index) = build_index(&c);
    let query = q("同型");
    let pairs = ngram_search(&query, &ngram, &index).unwrap();
    let hits = load_then_filter(&query, &pairs, &c).unwrap();
    let texts: Vec<String> = hits
        .iter()
        .map(|h| String::from_utf8(h.clone()).unwrap())
        .collect();
    assert_eq!(texts.len(), 2);
    assert!(texts.contains(&"同型\tisomorphism".to_string()));
    assert!(texts.contains(&"同型写像\tisomorphic mapping".to_string()));
}

#[test]
fn corrupt_key_file_is_refused() {
    let c = corpus(&[SENTINEL, "alpha\tone"]);
    let (mut ngram, index) = build_index(&c);
    ngram.push(0);
    assert_eq!(
        ngram_search(&q("a"), &ngram, &index),
        Err(SearchError::CorruptIndex)
    );
}

#[test]
fn mismatched_payload_file_is_refused() {
    let c = corpus(&[SENTINEL, "alpha\tone"]);
    let (ngram, mut index) = build_index(&c);
    index.pop();
    assert_eq!(
        ngram_search(&q("a"), &ngram, &index),
        Err(SearchError::CorruptIndex)
    );
}

#[test]
fn record_outside_corpus_is_refused() {
    let c = corpus(&["alpha\tone"]);
    let pairs = vec![(4u32, 100u32)];
    assert_eq!(load(&pairs, &c), Err(SearchError::RecordOutOfRange));
    assert_eq!(
        load_then_filter(&q("a"), &pairs, &c),
        Err(SearchError::RecordOutOfRange)
    );
}

#[test]
fn load_reads_exact_ranges() {
    let c = corpus(&["alpha", "beta"]);
    let pairs = vec![(0u32, 5u32), (6u32, 4u32)];
    let lines = load(&pairs, &c).unwrap();
    assert_eq!(lines[0], b"alpha".to_vec());
    assert_eq!(lines[1], b"beta".to_vec());
}

#[test]
fn tiny_index_yields_no_candidates() {
    // Fewer than four key blocks: the bisections collapse to the empty
    // range.
    let c = corpus(&["ab"]);
    let (ngram, index) = build_index(&c);
    assert_eq!(ngram.len() / 12, 2);
    let pairs = ngram_search(&q("a"), &ngram, &index).unwrap();
    assert!(pairs.is_empty());
}

#[test]
fn first_key_block_is_clamped_away() {
    // The bisections never report the very first key block: a query whose
    // only match sorts first in the key file comes back empty.
    let c = corpus(&["ab", "cd", "ef", "gh"]);
    let (ngram, index) = build_index(&c);
    assert_eq!(ngram.len() / 12, 8);
    let pairs = ngram_search(&q("a"), &ngram, &index).unwrap();
    assert!(pairs.is_empty());
    // A query matching a later block is unaffected.
    let pairs = ngram_search(&q("cd"), &ngram, &index).unwrap();
    assert_eq!(pairs, vec![(3, 2)]);
}

#[test]
fn bisections_bracket_the_matching_range() {
    // Key file blocks, sorted: "ab", "b", "cd", "d", "ef", "f", "gh", "h".
    let c = corpus(&["ab", "cd", "ef", "gh"]);
    let (ngram, _) = build_index(&c);
    // "cd" sits in block 2: the range is [2, 3) in blocks, [24, 36) in bytes.
    let head = make_search_key(&q("cd"));
    assert_eq!(limit_left(&ngram, &head), 24);
    assert_eq!(limit_right(&ngram, &head), 36);
    // "e" masks to one byte and matches only block 4.
    let head = make_search_key(&q("e"));
    assert_eq!(limit_left(&ngram, &head), 48);
    assert_eq!(limit_right(&ngram, &head), 60);
    // A query above every key is clamped to the end of the file.
    let head = make_search_key(&q("zz"));
    assert_eq!(limit_left(&ngram, &head), 96);
    assert_eq!(limit_right(&ngram, &head), 96);
}
