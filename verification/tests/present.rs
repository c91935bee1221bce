use ngram_index::bytes::{contains_bytes, lex_lt_bytes, starts_with_bytes};
use ngram_index::print::{decorate, print_to_console, reorder, replace_bytes};

fn q(s: &str) -> Vec<u8> {
    s.as_bytes().to_vec()
}

fn lines(ls: &[&str]) -> Vec<Vec<u8>> {
    ls.iter().map(|l| l.as_bytes().to_vec()).collect()
}

#[test]
fn lex_compare_is_bytewise() {
    assert!(lex_lt_bytes(b"abc", b"abd"));
    assert!(lex_lt_bytes(b"ab", b"abc"));
    assert!(!lex_lt_bytes(b"abc", b"abc"));
    assert!(!lex_lt_bytes(b"b", b"abc"));
    assert!(lex_lt_bytes(b"", b"a"));
}

#[test]
fn containment_is_bytewise() {
    assert!(contains_bytes(b"same pattern", b"pat"));
    assert!(contains_bytes(b"same pattern", b""));
    assert!(!contains_bytes(b"same pattern", b"patterns"));
    assert!(contains_bytes("同型写像".as_bytes(), "型写".as_bytes()));
    assert!(!contains_bytes("同型写像".as_bytes(), "像写".as_bytes()));
}

#[test]
fn starts_with_is_bytewise() {
    assert!(starts_with_bytes(b"alpha", b"al"));
    assert!(starts_with_bytes(b"alpha", b""));
    assert!(!starts_with_bytes(b"alpha", b"lp"));
    assert!(!starts_with_bytes(b"al", b"alpha"));
}

#[test]
fn replace_scans_left_to_right() {
    assert_eq!(replace_bytes(&q("aaa"), &q("aa"), &q("b")), q("ba"));
    assert_eq!(replace_bytes(&q("xyx"), &q("x"), &q("uu")), q("uuyuu"));
    assert_eq!(replace_bytes(&q("abc"), &q("z"), &q("w")), q("abc"));
    assert_eq!(replace_bytes(&q("tab\there"), &q("\t"), &q("")), q("tabhere"));
}

#[test]
fn reorder_puts_prefix_matches_first() {
    let hits = lines(&["contains q inside", "q starts here", "another q line", "q again"]);
    let r = reorder(&hits, &q("q"));
    let texts: Vec<&[u8]> = r.iter().map(|v| v.as_slice()).collect();
    assert_eq!(
        texts,
        vec![
            b"q starts here".as_slice(),
            b"q again".as_slice(),
            b"contains q inside".as_slice(),
            b"another q line".as_slice(),
        ]
    );
}

#[test]
fn decorate_highlights_and_reorders() {
    let hits = lines(&["ab\tcb"]);
    let r = decorate(&q("b"), hits);
    assert_eq!(r.len(), 1);
    let hl_left = "\x1b[0m\x1b[1;32mb\x1b[0m\x1b[1;36m";
    let hl_right = "\x1b[1;32mb\x1b[0m";
    let expected = format!("\x1b[1;36ma{}\x1b[0m  c{}", hl_left, hl_right);
    assert_eq!(r[0], expected.as_bytes().to_vec());
}

#[test]
fn decorate_unfolds_markup() {
    // The body column unfolds literal "\n" into newlines and turns the
    // strike markup into escape sequences.
    let hits = lines(&["w\ta<ħ>b</ħ>c\\nd"]);
    let r = decorate(&q("w"), hits);
    let hl_left = "\x1b[0m\x1b[1;32mw\x1b[0m\x1b[1;36m";
    let expected = format!(
        "\x1b[1;36m{}\x1b[0m  a\x1b[9mb\x1b[0mc\nd",
        hl_left
    );
    assert_eq!(r[0], expected.as_bytes().to_vec());
}

#[test]
fn print_to_console_joins_lines() {
    let hits = lines(&["ab\tx", "b\ty"]);
    let out = print_to_console(&q("b"), hits);
    let text = String::from_utf8(out).unwrap();
    let parts: Vec<&str> = text.split('\n').collect();
    assert_eq!(parts.len(), 2);
    // The line starting with the query comes first.
    assert!(parts[0].contains("\x1b[1;32mb\x1b[0m\x1b[1;36m"));
    assert!(parts[0].ends_with("y"));
    assert!(parts[1].ends_with("x"));
}
