//! Byte-sequence orderings and searching: the lexicographic order that the
//! key file is sorted by, substring containment, and prefix tests.

use vstd::prelude::*;

verus! {

/// Strict lexicographic order on byte sequences.
pub open spec fn lex_lt(a: Seq<u8>, b: Seq<u8>) -> bool
    decreases a.len(),
{
    if b.len() == 0 {
        false
    } else if a.len() == 0 {
        true
    } else if a[0] < b[0] {
        true
    } else if a[0] > b[0] {
        false
    } else {
        lex_lt(a.skip(1), b.skip(1))
    }
}

/// Non-strict lexicographic order on byte sequences.
pub open spec fn lex_le(a: Seq<u8>, b: Seq<u8>) -> bool {
    lex_lt(a, b) || a == b
}

/// `needle` occurs in `hay` starting at byte position `i`.
pub open spec fn matches_at(hay: Seq<u8>, needle: Seq<u8>, i: int) -> bool {
    0 <= i && i + needle.len() <= hay.len() && hay.subrange(i, i + needle.len()) == needle
}

/// `needle` occurs somewhere in `hay`.
pub open spec fn contains_seq(hay: Seq<u8>, needle: Seq<u8>) -> bool {
    exists|i: int| matches_at(hay, needle, i)
}

/// `a` begins with `b`.
pub open spec fn starts_with_seq(a: Seq<u8>, b: Seq<u8>) -> bool {
    b.len() <= a.len() && a.subrange(0, b.len() as int) == b
}

/// The lexicographic order never puts a sequence strictly below itself.
pub proof fn lemma_lex_irreflexive(a: Seq<u8>)
    ensures
        !lex_lt(a, a),
    decreases a.len(),
{
    if a.len() > 0 {
        lemma_lex_irreflexive(a.skip(1));
    }
}

/// At most one of `a < b` and `b < a` holds.
pub proof fn lemma_lex_asymmetric(a: Seq<u8>, b: Seq<u8>)
    requires
        lex_lt(a, b),
    ensures
        !lex_lt(b, a),
    decreases a.len(),
{
    if a.len() > 0 && b.len() > 0 && a[0] == b[0] {
        lemma_lex_asymmetric(a.skip(1), b.skip(1));
    }
}

/// Any two byte sequences are comparable: below, above, or equal.
pub proof fn lemma_lex_trichotomy(a: Seq<u8>, b: Seq<u8>)
    ensures
        lex_lt(a, b) || lex_lt(b, a) || a == b,
    decreases a.len(),
{
    if a.len() == 0 && b.len() == 0 {
        assert(a =~= b);
    } else if a.len() > 0 && b.len() > 0 && a[0] == b[0] {
        lemma_lex_trichotomy(a.skip(1), b.skip(1));
        if !lex_lt(a, b) && !lex_lt(b, a) {
            assert(a.skip(1) == b.skip(1));
            assert forall|i: int| 0 <= i < a.len() implies a[i] == b[i] by {
                if i >= 1 {
                    assert(a.skip(1)[i - 1] == b.skip(1)[i - 1]);
                }
            }
            assert(a =~= b);
        }
    }
}

/// The lexicographic order is transitive.
pub proof fn lemma_lex_transitive(a: Seq<u8>, b: Seq<u8>, c: Seq<u8>)
    requires
        lex_lt(a, b),
        lex_lt(b, c),
    ensures
        lex_lt(a, c),
    decreases a.len(),
{
    if a.len() > 0 && b.len() > 0 && c.len() > 0 && a[0] == b[0] && b[0] == c[0] {
        lemma_lex_transitive(a.skip(1), b.skip(1), c.skip(1));
    }
}

/// Transitivity for the mixed cases of the non-strict order.
pub proof fn lemma_lex_le_transitive(a: Seq<u8>, b: Seq<u8>, c: Seq<u8>)
    requires
        lex_le(a, b),
        lex_le(b, c),
    ensures
        lex_le(a, c),
{
    if lex_lt(a, b) && lex_lt(b, c) {
        lemma_lex_transitive(a, b, c);
    }
}

/// Truncating two equal-length sequences to a common length preserves the
/// non-strict order.
pub proof fn lemma_lex_le_take(a: Seq<u8>, b: Seq<u8>, m: int)
    requires
        a.len() == b.len(),
        0 <= m <= a.len(),
        lex_le(a, b),
    ensures
        lex_le(a.take(m), b.take(m)),
    decreases m,
{
    if m == 0 {
        assert(a.take(0) =~= b.take(0));
    } else if a == b {
        assert(a.take(m) =~= b.take(m));
    } else if a[0] < b[0] {
        assert(lex_lt(a.take(m), b.take(m)));
    } else {
        assert(a[0] == b[0]);
        assert(lex_lt(a.skip(1), b.skip(1)));
        lemma_lex_le_take(a.skip(1), b.skip(1), m - 1);
        assert(a.take(m).skip(1) =~= a.skip(1).take(m - 1));
        assert(b.take(m).skip(1) =~= b.skip(1).take(m - 1));
        if a.skip(1).take(m - 1) == b.skip(1).take(m - 1) {
            assert forall|i: int| 0 <= i < m implies a.take(m)[i] == b.take(m)[i] by {
                if i >= 1 {
                    assert(a.take(m).skip(1)[i - 1] == b.take(m).skip(1)[i - 1]);
                }
            }
            assert(a.take(m) =~= b.take(m));
        } else {
            assert(lex_lt(a.take(m).skip(1), b.take(m).skip(1)));
            assert(a.take(m)[0] == b.take(m)[0]);
            assert(lex_lt(a.take(m), b.take(m)));
        }
    }
}

/// Compares `a` with `b`, returning whether `a@` is strictly below `b@`.
pub fn lex_lt_bytes(a: &[u8], b: &[u8]) -> (r: bool)
    ensures
        r == lex_lt(a@, b@),
{
    let mut i: usize = 0;
    let alen = a.len();
    let blen = b.len();
    proof {
        assert(a@.skip(0) =~= a@);
        assert(b@.skip(0) =~= b@);
        assert(a@.take(0) =~= b@.take(0));
    }
    loop
        invariant
            i <= alen,
            i <= blen,
            alen == a@.len(),
            blen == b@.len(),
            a@.take(i as int) == b@.take(i as int),
            lex_lt(a@, b@) == lex_lt(a@.skip(i as int), b@.skip(i as int)),
        decreases alen - i,
    {
        if i == blen {
            return false;
        }
        if i == alen {
            return true;
        }
        if a[i] < b[i] {
            return true;
        }
        if a[i] > b[i] {
            return false;
        }
        proof {
            assert(a@.take(i + 1) == b@.take(i + 1)) by {
                assert(a@.take(i + 1) =~= a@.take(i as int).push(a@[i as int]));
                assert(b@.take(i + 1) =~= b@.take(i as int).push(b@[i as int]));
            }
            assert(a@.skip(i as int).skip(1) =~= a@.skip(i + 1));
            assert(b@.skip(i as int).skip(1) =~= b@.skip(i + 1));
        }
        i = i + 1;
    }
}

/// Whether `needle@` occurs in `hay@` at position `i` exactly.
pub fn matches_at_bytes(hay: &[u8], needle: &[u8], i: usize) -> (r: bool)
    requires
        i + needle@.len() <= hay@.len(),
    ensures
        r == matches_at(hay@, needle@, i as int),
{
    let mut j: usize = 0;
    let nlen = needle.len();
    let hlen = hay.len();
    while j < nlen
        invariant
            j <= nlen,
            nlen == needle@.len(),
            hlen == hay@.len(),
            i + nlen <= hlen,
            hay@.subrange(i as int, i + j) == needle@.take(j as int),
        decreases nlen - j,
    {
        if hay[i + j] != needle[j] {
            proof {
                assert(!matches_at(hay@, needle@, i as int)) by {
                    if hay@.subrange(i as int, i + nlen) == needle@ {
                        assert(hay@.subrange(i as int, i + nlen)[j as int] == hay@[i + j]);
                    }
                }
            }
            return false;
        }
        proof {
            assert(hay@.subrange(i as int, i + j + 1) =~= hay@.subrange(i as int, i + j).push(
                hay@[i + j],
            ));
            assert(needle@.take(j + 1) =~= needle@.take(j as int).push(needle@[j as int]));
        }
        j = j + 1;
    }
    proof {
        assert(hay@.subrange(i as int, i + nlen) =~= needle@.take(nlen as int));
        assert(needle@.take(nlen as int) =~= needle@);
    }
    true
}

/// Whether `a@` begins with `b@`.
pub fn starts_with_bytes(a: &[u8], b: &[u8]) -> (r: bool)
    ensures
        r == starts_with_seq(a@, b@),
{
    if b.len() > a.len() {
        return false;
    }
    let r = matches_at_bytes(a, b, 0);
    proof {
        assert(a@.subrange(0, b@.len() as int) == a@.subrange(0, 0 + b@.len() as int));
    }
    r
}

/// Whether `needle@` occurs anywhere in `hay@`; the empty needle occurs in
/// every haystack.
pub fn contains_bytes(hay: &[u8], needle: &[u8]) -> (r: bool)
    ensures
        r == contains_seq(hay@, needle@),
{
    let nlen = needle.len();
    let hlen = hay.len();
    if nlen == 0 {
        proof {
            assert(matches_at(hay@, needle@, 0)) by {
                assert(hay@.subrange(0, 0) =~= needle@);
            }
        }
        return true;
    }
    if nlen > hlen {
        proof {
            assert(!contains_seq(hay@, needle@)) by {
                assert(forall|i: int| !matches_at(hay@, needle@, i));
            }
        }
        return false;
    }
    let last = hlen - nlen;
    let mut i: usize = 0;
    loop
        invariant
            nlen == needle@.len(),
            hlen == hay@.len(),
            1 <= nlen <= hlen,
            last == hlen - nlen,
            i <= last,
            forall|k: int| 0 <= k < i ==> !matches_at(hay@, needle@, k),
        decreases last - i,
    {
        if matches_at_bytes(hay, needle, i) {
            return true;
        }
        if i == last {
            proof {
                assert forall|k: int| !matches_at(hay@, needle@, k) by {
                    if 0 <= k < last {
                        assert(!matches_at(hay@, needle@, k));
                    }
                }
            }
            return false;
        }
        i = i + 1;
    }
}

/// Position of the first occurrence of byte `b` in `a@`, if any.
pub fn find_byte(a: &[u8], b: u8) -> (r: Option<usize>)
    ensures
        match r {
            Some(i) => i < a@.len() && a@[i as int] == b && forall|k: int|
                0 <= k < i ==> a@[k] != b,
            None => forall|k: int| 0 <= k < a@.len() ==> a@[k] != b,
        },
{
    let len = a.len();
    let mut i: usize = 0;
    while i < len
        invariant
            i <= len,
            len == a@.len(),
            forall|k: int| 0 <= k < i ==> a@[k] != b,
        decreases len - i,
    {
        if a[i] == b {
            return Some(i);
        }
        i = i + 1;
    }
    None
}

} // verus!
