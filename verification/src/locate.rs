//! The range locator: two bisections over the key file find the contiguous
//! block range whose keys are consistent with a query, using a comparison
//! masked down to the query's own length.

use vstd::prelude::*;

use crate::bytes::{lex_le, lex_lt, lemma_lex_le_take, lemma_lex_transitive, lex_lt_bytes};

verus! {

broadcast use vstd::array::group_array_axioms;

/// The key of block `c` of a key file: twelve raw bytes.
pub open spec fn key_at(k: Seq<u8>, c: int) -> Seq<u8> {
    k.subrange(12 * c, 12 * c + 12)
}

/// How many whole 12-byte blocks the key file holds.
pub open spec fn num_blocks(k: Seq<u8>) -> int {
    k.len() as int / 12
}

/// The key file invariant: keys ascend in the byte-lexicographic order.
pub open spec fn keyfile_sorted(k: Seq<u8>) -> bool {
    forall|i: int, j: int|
        0 <= i < j < num_blocks(k) ==> lex_le(#[trigger] key_at(k, i), #[trigger] key_at(k, j))
}

/// The search key built from a query: its bytes, truncated to twelve,
/// zero-padded on the right.
pub open spec fn search_key(q: Seq<u8>) -> Seq<u8> {
    Seq::new(12, |i: int| if i < q.len() { q[i] } else { 0 })
}

/// The number of leading bytes of `h` that take part in comparisons: one
/// past the last nonzero byte. Trailing zero bytes of the search key are
/// wildcards, not literal zeroes to match.
pub open spec fn mask_len(h: Seq<u8>) -> nat
    decreases h.len(),
{
    if h.len() == 0 {
        0
    } else if h.last() != 0 {
        h.len()
    } else {
        mask_len(h.drop_last())
    }
}

/// The key of block `c` masked down to the first `m` bytes.
pub open spec fn masked_key(k: Seq<u8>, c: int, m: int) -> Seq<u8> {
    key_at(k, c).take(m)
}

/// Block `c`'s masked key lies strictly below the masked head.
pub open spec fn masked_lt(k: Seq<u8>, c: int, h: Seq<u8>, m: int) -> bool {
    lex_lt(masked_key(k, c, m), h.take(m))
}

/// Block `c`'s masked key lies strictly above the masked head.
pub open spec fn masked_gt(k: Seq<u8>, c: int, h: Seq<u8>, m: int) -> bool {
    lex_lt(h.take(m), masked_key(k, c, m))
}

/// The first block at or after `c` whose masked key is not below the masked
/// head, or the block count if there is none.
pub open spec fn first_not_lt(k: Seq<u8>, h: Seq<u8>, m: int, c: int) -> int
    decreases num_blocks(k) - c when c <= num_blocks(k)
{
    if c >= num_blocks(k) {
        num_blocks(k)
    } else if !masked_lt(k, c, h, m) {
        c
    } else {
        first_not_lt(k, h, m, c + 1)
    }
}

/// The first block at or after `c` whose masked key is strictly above the
/// masked head, or the block count if there is none.
pub open spec fn first_gt(k: Seq<u8>, h: Seq<u8>, m: int, c: int) -> int
    decreases num_blocks(k) - c when c <= num_blocks(k)
{
    if c >= num_blocks(k) {
        num_blocks(k)
    } else if masked_gt(k, c, h, m) {
        c
    } else {
        first_gt(k, h, m, c + 1)
    }
}

/// The block index where the matching range begins: the first block whose
/// masked key is at least the masked head.
pub open spec fn lower_bound(k: Seq<u8>, h: Seq<u8>) -> int {
    first_not_lt(k, h, mask_len(h) as int, 0)
}

/// One past the block index where the matching range ends: the first block
/// whose masked key is strictly above the masked head.
pub open spec fn upper_bound(k: Seq<u8>, h: Seq<u8>) -> int {
    first_gt(k, h, mask_len(h) as int, 0)
}

/// What `first_not_lt` returns: everything before it is below the head,
/// and it lands on a block that is not, if any exists.
pub proof fn lemma_first_not_lt(k: Seq<u8>, h: Seq<u8>, m: int, c: int)
    requires
        0 <= c <= num_blocks(k),
    ensures
        c <= first_not_lt(k, h, m, c) <= num_blocks(k),
        forall|j: int| c <= j < first_not_lt(k, h, m, c) ==> masked_lt(k, j, h, m),
        first_not_lt(k, h, m, c) < num_blocks(k) ==> !masked_lt(
            k,
            first_not_lt(k, h, m, c),
            h,
            m,
        ),
    decreases num_blocks(k) - c,
{
    if c < num_blocks(k) && masked_lt(k, c, h, m) {
        lemma_first_not_lt(k, h, m, c + 1);
    }
}

/// What `first_gt` returns, in the same way.
pub proof fn lemma_first_gt(k: Seq<u8>, h: Seq<u8>, m: int, c: int)
    requires
        0 <= c <= num_blocks(k),
    ensures
        c <= first_gt(k, h, m, c) <= num_blocks(k),
        forall|j: int| c <= j < first_gt(k, h, m, c) ==> !masked_gt(k, j, h, m),
        first_gt(k, h, m, c) < num_blocks(k) ==> masked_gt(k, first_gt(k, h, m, c), h, m),
    decreases num_blocks(k) - c,
{
    if c < num_blocks(k) && !masked_gt(k, c, h, m) {
        lemma_first_gt(k, h, m, c + 1);
    }
}

/// A sorted key file stays sorted after masking every key to `m` bytes.
pub proof fn lemma_masked_sorted(k: Seq<u8>, m: int)
    requires
        keyfile_sorted(k),
        0 <= m <= 12,
    ensures
        forall|i: int, j: int|
            0 <= i < j < num_blocks(k) ==> lex_le(
                #[trigger] masked_key(k, i, m),
                #[trigger] masked_key(k, j, m),
            ),
{
    assert forall|i: int, j: int| 0 <= i < j < num_blocks(k) implies lex_le(
        #[trigger] masked_key(k, i, m),
        #[trigger] masked_key(k, j, m),
    ) by {
        assert(lex_le(key_at(k, i), key_at(k, j)));
        lemma_lex_le_take(key_at(k, i), key_at(k, j), m);
    }
}

/// In a sorted key file, once a block is not below the head, no later block
/// is; once a block is above the head, every later block is.
pub proof fn lemma_sorted_bounds(k: Seq<u8>, h: Seq<u8>, m: int, i: int, j: int)
    requires
        keyfile_sorted(k),
        0 <= m <= 12,
        0 <= i <= j < num_blocks(k),
    ensures
        !masked_lt(k, i, h, m) ==> !masked_lt(k, j, h, m),
        masked_gt(k, i, h, m) ==> masked_gt(k, j, h, m),
{
    if i < j {
        lemma_masked_sorted(k, m);
        assert(lex_le(masked_key(k, i, m), masked_key(k, j, m)));
        if !masked_lt(k, i, h, m) && masked_lt(k, j, h, m) {
            if masked_key(k, i, m) != masked_key(k, j, m) {
                lemma_lex_transitive(masked_key(k, i, m), masked_key(k, j, m), h.take(m));
            }
        }
        if masked_gt(k, i, h, m) && masked_key(k, i, m) != masked_key(k, j, m) {
            lemma_lex_transitive(h.take(m), masked_key(k, i, m), masked_key(k, j, m));
        }
    }
}

/// The mask never reaches past the end of the search key.
pub proof fn lemma_mask_len_le(h: Seq<u8>)
    ensures
        mask_len(h) <= h.len(),
    decreases h.len(),
{
    if h.len() > 0 && h.last() == 0 {
        lemma_mask_len_le(h.drop_last());
    }
}

/// A block index clamped away from the very first block: the bisections
/// never report block 0, so a match there is out of their reach.
pub open spec fn clamp_first(b: int) -> int {
    if b >= 1 {
        b
    } else {
        1
    }
}

/// Adjacent order between all neighbouring keys gives the whole file's
/// order.
pub proof fn lemma_adjacent_sorted(k: Seq<u8>, i: int, j: int)
    requires
        forall|a: int|
            0 <= a < num_blocks(k) - 1 ==> lex_le(#[trigger] key_at(k, a), key_at(k, a + 1)),
        0 <= i <= j < num_blocks(k),
    ensures
        lex_le(key_at(k, i), key_at(k, j)),
    decreases j - i,
{
    if i < j {
        lemma_adjacent_sorted(k, i, j - 1);
        assert(lex_le(key_at(k, j - 1), key_at(k, j)));
        crate::bytes::lemma_lex_le_transitive(key_at(k, i), key_at(k, j - 1), key_at(k, j));
    }
}

/// Checks that a key file is well formed: its size fits the stride and its
/// keys ascend. A corrupt file is detected rather than searched.
pub fn is_sorted_keyfile(ngram: &Vec<u8>) -> (r: bool)
    ensures
        r == (ngram@.len() % 12 == 0 && keyfile_sorted(ngram@)),
{
    let n = ngram.len();
    if n % 12 != 0 {
        return false;
    }
    let nb = n / 12;
    proof {
        assert(n == 12 * num_blocks(ngram@));
    }
    if nb == 0 {
        return true;
    }
    let mut a: usize = 0;
    while a < nb - 1
        invariant
            nb >= 1,
            a <= nb - 1,
            nb == num_blocks(ngram@),
            n == ngram@.len(),
            n == 12 * nb,
            forall|b: int|
                0 <= b < a ==> lex_le(#[trigger] key_at(ngram@, b), key_at(ngram@, b + 1)),
        decreases nb - a,
    {
        let lt = lex_lt_bytes(
            vstd::slice::slice_subrange(ngram.as_slice(), 12 * a + 12, 12 * a + 24),
            vstd::slice::slice_subrange(ngram.as_slice(), 12 * a, 12 * a + 12),
        );
        proof {
            assert(ngram@.subrange(12 * a + 12, 12 * a + 24) =~= key_at(ngram@, a + 1));
            assert(ngram@.subrange(12 * a, 12 * a + 12) =~= key_at(ngram@, a as int));
        }
        if lt {
            proof {
                crate::bytes::lemma_lex_asymmetric(key_at(ngram@, a + 1), key_at(ngram@, a as int));
                crate::bytes::lemma_lex_irreflexive(key_at(ngram@, a + 1));
                assert(!keyfile_sorted(ngram@)) by {
                    if keyfile_sorted(ngram@) {
                        assert(lex_le(key_at(ngram@, a as int), key_at(ngram@, a + 1)));
                    }
                }
            }
            return false;
        }
        proof {
            crate::bytes::lemma_lex_trichotomy(key_at(ngram@, a as int), key_at(ngram@, a + 1));
        }
        a = a + 1;
    }
    proof {
        assert forall|i: int, j: int| 0 <= i < j < num_blocks(ngram@) implies lex_le(
            #[trigger] key_at(ngram@, i),
            #[trigger] key_at(ngram@, j),
        ) by {
            lemma_adjacent_sorted(ngram@, i, j);
        }
    }
    true
}

/// Builds the search key for a query: the query's bytes, truncated to the
/// key width, zero-padded on the right.
pub fn make_search_key(query: &Vec<u8>) -> (head: [u8; 12])
    ensures
        head@ == search_key(query@),
{
    let qlen = query.len();
    let mut head = [0u8; 12];
    let mut i: usize = 0;
    while i < 12
        invariant
            i <= 12,
            qlen == query@.len(),
            head@.len() == 12,
            forall|j: int| 0 <= j < i ==> head@[j] == search_key(query@)[j],
            forall|j: int| i <= j < 12 ==> head@[j] == 0,
        decreases 12 - i,
    {
        if i < qlen {
            head[i] = query[i];
        }
        i = i + 1;
    }
    proof {
        assert(head@ =~= search_key(query@));
    }
    head
}

/// Number of leading bytes of the search key that comparisons look at.
pub fn mask_len_exec(head: &[u8; 12]) -> (m: usize)
    ensures
        m == mask_len(head@),
{
    let mut i: usize = 12;
    proof {
        assert(head@.take(12) =~= head@);
    }
    loop
        invariant
            i <= 12,
            mask_len(head@) == mask_len(head@.take(i as int)),
        decreases i,
    {
        if i == 0 {
            return 0;
        }
        if head[i - 1] != 0 {
            proof {
                assert(head@.take(i as int).last() == head@[i - 1]);
            }
            return i;
        }
        proof {
            assert(head@.take(i as int).last() == head@[i - 1]);
            assert(head@.take(i as int).drop_last() =~= head@.take(i - 1));
        }
        i = i - 1;
    }
}

/// Whether block `c`'s masked key is strictly below the masked head.
fn block_lt_head(ngram: &Vec<u8>, c: usize, head: &[u8; 12], m: usize) -> (r: bool)
    requires
        m <= 12,
        ngram@.len() % 12 == 0,
        (c as int) < num_blocks(ngram@),
    ensures
        r == masked_lt(ngram@, c as int, head@, m as int),
{
    let n = ngram.len();
    proof {
        assert(n == 12 * num_blocks(ngram@));
        assert(12 * (c as int) + 12 <= n);
    }
    let ks = vstd::slice::slice_subrange(ngram.as_slice(), 12 * c, 12 * c + m);
    let hs = vstd::slice::slice_subrange(head.as_slice(), 0, m);
    let r = lex_lt_bytes(ks, hs);
    proof {
        assert(ks@ =~= masked_key(ngram@, c as int, m as int));
        assert(hs@ =~= head@.take(m as int));
    }
    r
}

/// Whether the masked head is strictly below block `c`'s masked key.
fn head_lt_block(ngram: &Vec<u8>, c: usize, head: &[u8; 12], m: usize) -> (r: bool)
    requires
        m <= 12,
        ngram@.len() % 12 == 0,
        (c as int) < num_blocks(ngram@),
    ensures
        r == masked_gt(ngram@, c as int, head@, m as int),
{
    let n = ngram.len();
    proof {
        assert(n == 12 * num_blocks(ngram@));
        assert(12 * (c as int) + 12 <= n);
    }
    let ks = vstd::slice::slice_subrange(ngram.as_slice(), 12 * c, 12 * c + m);
    let hs = vstd::slice::slice_subrange(head.as_slice(), 0, m);
    let r = lex_lt_bytes(hs, ks);
    proof {
        assert(ks@ =~= masked_key(ngram@, c as int, m as int));
        assert(hs@ =~= head@.take(m as int));
    }
    r
}

/// The left bisection: finds the byte offset, in the key file, of the first
/// block of the matching range. For any index of at least four blocks the
/// result is the start of the first block whose masked key is not below the
/// masked search key, clamped away from block 0; a smaller index always
/// reports the first block boundary, which makes its range empty.
pub fn limit_left(ngram: &Vec<u8>, head: &[u8; 12]) -> (r: usize)
    requires
        ngram@.len() % 12 == 0,
        num_blocks(ngram@) >= 2,
        keyfile_sorted(ngram@),
    ensures
        r % 12 == 0,
        12 <= r <= ngram@.len(),
        num_blocks(ngram@) <= 3 ==> r == 12,
        num_blocks(ngram@) >= 4 ==> r == 12 * clamp_first(lower_bound(ngram@, head@)),
{
    let n = ngram.len();
    let nb = n / 12;
    let m = mask_len_exec(head);
    let ghost k = ngram@;
    let ghost h = head@;
    let ghost mi = m as int;
    proof {
        assert(n == 12 * num_blocks(k));
        lemma_mask_len_le(h);
    }
    let mut fr: usize = 0;
    let mut to: usize = nb;
    let mut cur: usize = nb / 2 - 1;
    loop
        invariant
            k == ngram@,
            h == head@,
            nb == num_blocks(k),
            n == ngram@.len(),
            n == 12 * nb,
            nb >= 2,
            mi == m,
            mi == mask_len(h),
            0 <= mi <= 12,
            keyfile_sorted(k),
            fr <= cur < to <= nb,
            cur == 0 || fr < cur,
            nb <= 3 ==> cur == 0,
            nb >= 4 ==> cur >= 1,
            fr == 0 || masked_lt(k, fr as int, h, mi),
            to == nb || !masked_lt(k, to as int, h, mi),
            cur == nb - 1 ==> masked_lt(k, cur as int, h, mi),
        decreases to - fr,
    {
        if cur == 0 || cur == nb - 1 {
            proof {
                lemma_first_not_lt(k, h, mi, 0);
                let b = first_not_lt(k, h, mi, 0);
                if cur == nb - 1 {
                    assert forall|j: int| 0 <= j < nb implies masked_lt(k, j, h, mi) by {
                        lemma_sorted_bounds(k, h, mi, j, nb - 1);
                    }
                    assert(b == nb);
                }
            }
            return (cur + 1) * 12;
        }
        let word_lt = block_lt_head(ngram, cur, head, m);
        let next_lt = block_lt_head(ngram, cur + 1, head, m);
        if word_lt && !next_lt {
            proof {
                lemma_first_not_lt(k, h, mi, 0);
                let b = first_not_lt(k, h, mi, 0);
                assert forall|j: int| 0 <= j <= cur implies masked_lt(k, j, h, mi) by {
                    lemma_sorted_bounds(k, h, mi, j, cur as int);
                }
                assert(b == cur + 1);
            }
            return (cur + 1) * 12;
        }
        if !word_lt {
            // The head is at or below this block: the boundary is to the left.
            to = cur;
            let u = (cur - fr) / 2;
            if u == 0 {
                proof {
                    lemma_first_not_lt(k, h, mi, 0);
                    let b = first_not_lt(k, h, mi, 0);
                    assert(fr == cur - 1);
                    if fr > 0 {
                        assert forall|j: int| 0 <= j < cur implies masked_lt(k, j, h, mi) by {
                            lemma_sorted_bounds(k, h, mi, j, fr as int);
                        }
                        assert(b == cur as int);
                    } else {
                        assert(cur == 1);
                        assert(b <= 1);
                    }
                }
                return cur * 12;
            }
            cur = cur - u;
        } else {
            // This block is below the head: the boundary is to the right.
            fr = cur;
            let u = (to - cur) / 2;
            if u == 0 {
                proof {
                    // `to` is the next block and already at or above the
                    // head, so the boundary test above would have returned.
                    assert(to == cur + 1);
                    assert(to < nb);
                    assert(false);
                }
                return cur * 12;
            }
            let ghost old_cur = cur as int;
            cur = cur + u;
            proof {
                if cur == nb - 1 {
                    assert(old_cur == nb - 2);
                }
            }
        }
    }
}

/// The right bisection: finds the byte offset, in the key file, one past the
/// last block of the matching range. For any index of at least four blocks
/// the result is the start of the first block whose masked key is strictly
/// above the masked search key, clamped away from block 0; a smaller index
/// always reports the first block boundary.
pub fn limit_right(ngram: &Vec<u8>, head: &[u8; 12]) -> (r: usize)
    requires
        ngram@.len() % 12 == 0,
        num_blocks(ngram@) >= 2,
        keyfile_sorted(ngram@),
    ensures
        r % 12 == 0,
        12 <= r <= ngram@.len(),
        num_blocks(ngram@) <= 3 ==> r == 12,
        num_blocks(ngram@) >= 4 ==> r == 12 * clamp_first(upper_bound(ngram@, head@)),
{
    let n = ngram.len();
    let nb = n / 12;
    let m = mask_len_exec(head);
    let ghost k = ngram@;
    let ghost h = head@;
    let ghost mi = m as int;
    proof {
        assert(n == 12 * num_blocks(k));
        lemma_mask_len_le(h);
    }
    let mut fr: usize = 0;
    let mut to: usize = nb;
    let mut cur: usize = nb / 2 - 1;
    loop
        invariant
            k == ngram@,
            h == head@,
            nb == num_blocks(k),
            n == ngram@.len(),
            n == 12 * nb,
            nb >= 2,
            mi == m,
            mi == mask_len(h),
            0 <= mi <= 12,
            keyfile_sorted(k),
            fr <= cur < to <= nb,
            cur == 0 || fr < cur,
            nb <= 3 ==> cur == 0,
            nb >= 4 ==> cur >= 1,
            fr == 0 || !masked_gt(k, fr as int, h, mi),
            to == nb || masked_gt(k, to as int, h, mi),
            cur == nb - 1 ==> !masked_gt(k, cur as int, h, mi),
        decreases to - fr,
    {
        if cur == 0 || cur == nb - 1 {
            proof {
                lemma_first_gt(k, h, mi, 0);
                let e = first_gt(k, h, mi, 0);
                if cur == nb - 1 {
                    assert forall|j: int| 0 <= j < nb implies !masked_gt(k, j, h, mi) by {
                        lemma_sorted_bounds(k, h, mi, j, nb - 1);
                    }
                    assert(e == nb);
                }
            }
            return (cur + 1) * 12;
        }
        let word_gt = head_lt_block(ngram, cur, head, m);
        let next_gt = head_lt_block(ngram, cur + 1, head, m);
        if !word_gt && next_gt {
            proof {
                lemma_first_gt(k, h, mi, 0);
                let e = first_gt(k, h, mi, 0);
                assert forall|j: int| 0 <= j <= cur implies !masked_gt(k, j, h, mi) by {
                    lemma_sorted_bounds(k, h, mi, j, cur as int);
                }
                assert(e == cur + 1);
            }
            return (cur + 1) * 12;
        }
        if word_gt {
            // The head is strictly below this block: the boundary is to the
            // left.
            to = cur;
            let u = (cur - fr) / 2;
            if u == 0 {
                proof {
                    lemma_first_gt(k, h, mi, 0);
                    let e = first_gt(k, h, mi, 0);
                    assert(fr == cur - 1);
                    if fr > 0 {
                        assert forall|j: int| 0 <= j < cur implies !masked_gt(k, j, h, mi) by {
                            lemma_sorted_bounds(k, h, mi, j, fr as int);
                        }
                        assert(e == cur as int);
                    } else {
                        assert(cur == 1);
                        assert(e <= 1);
                    }
                }
                return cur * 12;
            }
            cur = cur - u;
        } else {
            // This block is at or below the head: the boundary is to the
            // right.
            fr = cur;
            let u = (to - cur) / 2;
            if u == 0 {
                proof {
                    // `to` is the next block and already above the head, so
                    // the boundary test above would have returned.
                    assert(to == cur + 1);
                    assert(to < nb);
                    assert(false);
                }
                return cur * 12;
            }
            let ghost old_cur = cur as int;
            cur = cur + u;
            proof {
                if cur == nb - 1 {
                    assert(old_cur == nb - 2);
                }
            }
        }
    }
}

} // verus!
