//! Query evaluation: locating the candidate block range, decoding the
//! payload records it covers, and retrieving and filtering the corpus lines
//! they point at.

use vstd::prelude::*;

use crate::locate::{
    clamp_first, keyfile_sorted, lemma_first_gt, lemma_first_not_lt, limit_left, limit_right,
    lower_bound, make_search_key, mask_len, num_blocks, search_key, upper_bound,
};

verus! {

broadcast use
    vstd::seq_lib::group_to_multiset_ensures,
    vstd::multiset::group_multiset_axioms,
;

/// The queries a candidate list is cut off at: more hits than this are
/// truncated, trading completeness for a bound on retrieval cost.
pub const RESULT_CAP: usize = 9999;

/// How a query can fail.
#[derive(Clone, Copy, Debug, PartialEq, Eq, Structural)]
pub enum SearchError {
    /// A key or payload file whose size does not fit the record strides.
    CorruptIndex,
    /// A payload record pointing outside the corpus file.
    RecordOutOfRange,
}

/// The big-endian 32-bit value of four bytes.
pub open spec fn be32(b: Seq<u8>) -> int {
    b[0] * 0x100_0000 + b[1] * 0x1_0000 + b[2] * 0x100 + b[3]
}

/// The `(offset, length)` record at position `j` of the payload file.
pub open spec fn pair_at(index: Seq<u8>, j: int) -> (u32, u32) {
    (
        be32(index.subrange(8 * j, 8 * j + 4)) as u32,
        be32(index.subrange(8 * j + 4, 8 * j + 8)) as u32,
    )
}

/// The payload records of blocks `lo` (inclusive) to `hi` (exclusive).
pub open spec fn range_pairs(index: Seq<u8>, lo: int, hi: int) -> Seq<(u32, u32)>
    decreases hi - lo,
{
    if hi <= lo {
        Seq::empty()
    } else {
        range_pairs(index, lo, hi - 1).push(pair_at(index, hi - 1))
    }
}

/// The order candidate records are reported in: by offset, then by length.
pub open spec fn pair_le(a: (u32, u32), b: (u32, u32)) -> bool {
    a.0 < b.0 || (a.0 == b.0 && a.1 <= b.1)
}

/// The record order as a first-class relation, for `sort_by`.
pub open spec fn pair_order() -> spec_fn((u32, u32), (u32, u32)) -> bool {
    |a: (u32, u32), b: (u32, u32)| pair_le(a, b)
}

/// Record sequences in report order.
pub open spec fn sorted_pairs(s: Seq<(u32, u32)>) -> bool {
    forall|i: int, j: int| 0 <= i < j < s.len() ==> pair_le(#[trigger] s[i], #[trigger] s[j])
}

/// The record order is a total order.
pub proof fn lemma_pair_total_ordering()
    ensures
        vstd::relations::total_ordering(pair_order()),
{
    let leq = pair_order();
    assert forall|a: (u32, u32)| #[trigger] leq(a, a) by {}
    assert forall|a: (u32, u32), b: (u32, u32)| #[trigger] leq(a, b) && #[trigger] leq(b, a)
        implies a == b by {}
    assert forall|a: (u32, u32), b: (u32, u32), c: (u32, u32)|
        #[trigger] leq(a, b) && #[trigger] leq(b, c) implies leq(a, c) by {}
    assert forall|a: (u32, u32), b: (u32, u32)| #[trigger] leq(a, b) || #[trigger] leq(b, a) by {}
}

/// `sorted_pairs` says the same as vstd's `sorted_by` under the record order.
pub proof fn lemma_sorted_pairs_bridge(s: Seq<(u32, u32)>)
    ensures
        sorted_pairs(s) <==> vstd::relations::sorted_by(s, pair_order()),
{
    let leq = pair_order();
    if sorted_pairs(s) {
        assert forall|i: int, j: int| 0 <= i < j < s.len() implies #[trigger] leq(s[i], s[j]) by {
            assert(pair_le(s[i], s[j]));
        }
    }
    if vstd::relations::sorted_by(s, leq) {
        assert forall|i: int, j: int| 0 <= i < j < s.len() implies pair_le(
            #[trigger] s[i],
            #[trigger] s[j],
        ) by {
            assert(leq(s[i], s[j]));
        }
    }
}

/// Removal of adjacent duplicate records, keeping the first of each run.
pub open spec fn dedup_pairs(s: Seq<(u32, u32)>) -> Seq<(u32, u32)>
    decreases s.len(),
{
    if s.len() <= 1 {
        s
    } else if s[s.len() - 1] == s[s.len() - 2] {
        dedup_pairs(s.drop_last())
    } else {
        dedup_pairs(s.drop_last()).push(s.last())
    }
}

/// Whether the key and payload file sizes fit their strides and each other.
pub open spec fn index_sizes_ok(k: Seq<u8>, index: Seq<u8>) -> bool {
    k.len() % 12 == 0 && index.len() == 8 * num_blocks(k)
}

/// The block where the candidate range of a query starts; indexes of fewer
/// than four blocks always yield the empty range `[1, 1)`.
pub open spec fn range_lo(k: Seq<u8>, q: Seq<u8>) -> int {
    if num_blocks(k) <= 3 {
        1
    } else {
        clamp_first(lower_bound(k, search_key(q)))
    }
}

/// One past the block where the candidate range of a query ends.
pub open spec fn range_hi(k: Seq<u8>, q: Seq<u8>) -> int {
    if num_blocks(k) <= 3 {
        1
    } else {
        clamp_first(upper_bound(k, search_key(q)))
    }
}

/// What a query returns: the payload records of the located block range,
/// sorted, deduplicated, and cut off at the result cap. The empty query and
/// an index of fewer than two blocks return nothing.
pub open spec fn search_result(k: Seq<u8>, index: Seq<u8>, q: Seq<u8>) -> Seq<(u32, u32)> {
    if q.len() == 0 || num_blocks(k) < 2 {
        Seq::empty()
    } else {
        let sorted = dedup_pairs(
            range_pairs(index, range_lo(k, q), range_hi(k, q)).sort_by(pair_order()),
        );
        if sorted.len() > RESULT_CAP {
            sorted.take(RESULT_CAP as int)
        } else {
            sorted
        }
    }
}

/// Reads one big-endian 32-bit value out of four bytes.
pub fn to_u32(b: &[u8; 4]) -> (r: u32)
    ensures
        r as int == be32(b@),
{
    let b0 = b[0] as u32;
    let b1 = b[1] as u32;
    let b2 = b[2] as u32;
    let b3 = b[3] as u32;
    b0 * 0x100_0000 + b1 * 0x1_0000 + b2 * 0x100 + b3
}

/// Merges two runs of records that are already in report order.
fn merge_pairs(a: Vec<(u32, u32)>, b: Vec<(u32, u32)>) -> (r: Vec<(u32, u32)>)
    requires
        sorted_pairs(a@),
        sorted_pairs(b@),
    ensures
        sorted_pairs(r@),
        r@.to_multiset() == a@.to_multiset().add(b@.to_multiset()),
        r@.len() == a@.len() + b@.len(),
{
    let alen = a.len();
    let blen = b.len();
    let mut out: Vec<(u32, u32)> = Vec::new();
    let mut i: usize = 0;
    let mut j: usize = 0;
    while i < alen || j < blen
        invariant
            i <= alen,
            j <= blen,
            alen == a@.len(),
            blen == b@.len(),
            sorted_pairs(a@),
            sorted_pairs(b@),
            out@.len() == i + j,
            sorted_pairs(out@),
            out@.to_multiset() == a@.take(i as int).to_multiset().add(
                b@.take(j as int).to_multiset(),
            ),
            forall|l: int, k: int|
                0 <= l < out@.len() && i <= k < alen ==> pair_le(
                    #[trigger] out@[l],
                    #[trigger] a@[k],
                ),
            forall|l: int, k: int|
                0 <= l < out@.len() && j <= k < blen ==> pair_le(
                    #[trigger] out@[l],
                    #[trigger] b@[k],
                ),
        decreases alen - i + blen - j,
    {
        let take_a = if j == blen {
            true
        } else if i == alen {
            false
        } else {
            let x = a[i];
            let y = b[j];
            x.0 < y.0 || (x.0 == y.0 && x.1 <= y.1)
        };
        let ghost pre = out@;
        if take_a {
            let x = a[i];
            out.push(x);
            proof {
                assert(out@ =~= pre.push(x));
                assert(a@.take(i + 1) =~= a@.take(i as int).push(x));
                assert(a@.take(i as int).to_multiset().insert(x).add(
                    b@.take(j as int).to_multiset(),
                ) =~= a@.take(i as int).to_multiset().add(b@.take(j as int).to_multiset()).insert(
                    x,
                ));
                assert(out@.to_multiset() =~= a@.take(i + 1).to_multiset().add(
                    b@.take(j as int).to_multiset(),
                ));
            }
            i = i + 1;
        } else {
            let x = b[j];
            out.push(x);
            proof {
                assert(out@ =~= pre.push(x));
                assert(b@.take(j + 1) =~= b@.take(j as int).push(x));
                assert(out@.to_multiset() =~= a@.take(i as int).to_multiset().add(
                    b@.take(j + 1).to_multiset(),
                ));
            }
            j = j + 1;
        }
    }
    proof {
        assert(a@.take(alen as int) =~= a@);
        assert(b@.take(blen as int) =~= b@);
    }
    out
}

/// Sorts candidate records into report order; the result is exactly
/// `sort_by(pair_order())` of the input.
pub fn sort_pairs(v: Vec<(u32, u32)>) -> (r: Vec<(u32, u32)>)
    ensures
        r@ == v@.sort_by(pair_order()),
        r@.len() == v@.len(),
    decreases v@.len(),
{
    proof {
        lemma_pair_total_ordering();
        v@.lemma_sort_by_ensures(pair_order());
    }
    if v.len() <= 1 {
        proof {
            lemma_sorted_pairs_bridge(v@);
            vstd::seq_lib::lemma_sorted_unique(v@, v@.sort_by(pair_order()), pair_order());
        }
        return v;
    }
    let mut v = v;
    let ghost whole = v@;
    let mid = v.len() / 2;
    let right = v.split_off(mid);
    let ls = sort_pairs(v);
    let rs = sort_pairs(right);
    proof {
        lemma_sorted_pairs_bridge(ls@);
        lemma_sorted_pairs_bridge(rs@);
        whole.subrange(0, mid as int).lemma_sort_by_ensures(pair_order());
        whole.subrange(mid as int, whole.len() as int).lemma_sort_by_ensures(pair_order());
    }
    let r = merge_pairs(ls, rs);
    proof {
        let leq = pair_order();
        assert(whole =~= whole.subrange(0, mid as int) + whole.subrange(
            mid as int,
            whole.len() as int,
        ));
        vstd::seq_lib::lemma_multiset_commutative(
            whole.subrange(0, mid as int),
            whole.subrange(mid as int, whole.len() as int),
        );
        lemma_sorted_pairs_bridge(r@);
        vstd::seq_lib::lemma_sorted_unique(r@, whole.sort_by(leq), leq);
    }
    r
}

/// Removes exact adjacent duplicate records.
pub fn dedup_pairs_exec(v: Vec<(u32, u32)>) -> (r: Vec<(u32, u32)>)
    ensures
        r@ == dedup_pairs(v@),
{
    let vlen = v.len();
    let mut out: Vec<(u32, u32)> = Vec::new();
    let mut i: usize = 0;
    while i < vlen
        invariant
            i <= vlen,
            vlen == v@.len(),
            out@ == dedup_pairs(v@.take(i as int)),
        decreases vlen - i,
    {
        let keep = if i == 0 {
            true
        } else {
            let p = v[i - 1];
            let q = v[i];
            p.0 != q.0 || p.1 != q.1
        };
        let ghost pre = out@;
        if keep {
            out.push(v[i]);
        }
        proof {
            let t1 = v@.take(i + 1);
            assert(t1.drop_last() =~= v@.take(i as int));
            assert(t1.last() == v@[i as int]);
            if i > 0 {
                assert(t1[t1.len() - 2] == v@[i - 1]);
            }
            if keep {
                assert(out@ =~= pre.push(v@[i as int]));
            }
        }
        i = i + 1;
    }
    proof {
        assert(v@.take(vlen as int) =~= v@);
    }
    out
}

/// Answers a query against one key file / payload file pair held in memory:
/// bisects the key file for the candidate block range, decodes the payload
/// records it covers, and reports them sorted, deduplicated, and cut off at
/// the result cap. An empty query returns no records at no cost; files whose
/// sizes do not fit the strides are refused.
pub fn ngram_search(keyword: &Vec<u8>, ngram: &Vec<u8>, index: &Vec<u8>) -> (r: Result<
    Vec<(u32, u32)>,
    SearchError,
>)
    requires
        keyfile_sorted(ngram@),
    ensures
        match r {
            Ok(pairs) => index_sizes_ok(ngram@, index@) && pairs@ == search_result(
                ngram@,
                index@,
                keyword@,
            ),
            Err(e) => e == SearchError::CorruptIndex && !index_sizes_ok(ngram@, index@),
        },
{
    let nlen = ngram.len();
    let ilen = index.len();
    if nlen % crate::BLOCK_SIZE != 0 {
        return Err(SearchError::CorruptIndex);
    }
    let nb = nlen / crate::BLOCK_SIZE;
    proof {
        assert(nlen == 12 * num_blocks(ngram@));
    }
    if ilen != nb * 8 {
        return Err(SearchError::CorruptIndex);
    }
    if keyword.len() == 0 {
        return Ok(Vec::new());
    }
    if nb < 2 {
        return Ok(Vec::new());
    }
    let head = make_search_key(keyword);
    let begin = limit_left(ngram, &head);
    let end = limit_right(ngram, &head);
    let lo = begin / crate::BLOCK_SIZE;
    let hi = end / crate::BLOCK_SIZE;
    proof {
        lemma_range_lo_le_hi(ngram@, keyword@);
        assert(lo == range_lo(ngram@, keyword@));
        assert(hi == range_hi(ngram@, keyword@));
    }
    let mut pairs: Vec<(u32, u32)> = Vec::new();
    let mut b: usize = lo;
    while b < hi
        invariant
            lo <= b <= hi,
            hi as int <= num_blocks(ngram@),
            ilen == index@.len(),
            ilen == 8 * num_blocks(ngram@),
            pairs@ == range_pairs(index@, lo as int, b as int),
        decreases hi - b,
    {
        let obytes = [index[8 * b], index[8 * b + 1], index[8 * b + 2], index[8 * b + 3]];
        let lbytes = [index[8 * b + 4], index[8 * b + 5], index[8 * b + 6], index[8 * b + 7]];
        let off = to_u32(&obytes);
        let len = to_u32(&lbytes);
        proof {
            assert(obytes@ =~= index@.subrange(8 * b, 8 * b + 4));
            assert(lbytes@ =~= index@.subrange(8 * b + 4, 8 * b + 8));
            assert((off, len) == pair_at(index@, b as int));
        }
        pairs.push((off, len));
        b = b + 1;
    }
    let sorted = sort_pairs(pairs);
    let mut result = dedup_pairs_exec(sorted);
    if result.len() > RESULT_CAP {
        result.truncate(RESULT_CAP);
    }
    Ok(result)
}

/// All records point inside a corpus of `tlen` bytes.
pub open spec fn pairs_in_bounds(nums: Seq<(u32, u32)>, tlen: int) -> bool {
    forall|i: int| 0 <= i < nums.len() ==> (#[trigger] nums[i]).0 + nums[i].1 <= tlen
}

/// The corpus bytes each record points at, record by record.
pub open spec fn lines_of(nums: Seq<(u32, u32)>, text: Seq<u8>) -> Seq<Seq<u8>> {
    nums.map_values(|p: (u32, u32)| text.subrange(p.0 as int, p.0 + p.1))
}

/// The views of a vector of retrieved lines.
pub open spec fn lines_view(s: Seq<Vec<u8>>) -> Seq<Seq<u8>> {
    s.map_values(|v: Vec<u8>| v@)
}

/// Containment of a query, as a first-class predicate on lines.
pub open spec fn contains_pred(q: Seq<u8>) -> spec_fn(Seq<u8>) -> bool {
    |l: Seq<u8>| crate::bytes::contains_seq(l, q)
}

/// An owned copy of a byte vector.
pub fn copy_bytes(v: &Vec<u8>) -> (r: Vec<u8>)
    ensures
        r@ == v@,
{
    vstd::slice::slice_to_vec(v.as_slice())
}

/// Reads, for each `(offset, length)` record, exactly those corpus bytes. A
/// record that points outside the corpus fails the whole retrieval.
pub fn load(nums: &Vec<(u32, u32)>, text: &Vec<u8>) -> (r: Result<Vec<Vec<u8>>, SearchError>)
    ensures
        match r {
            Ok(lines) => pairs_in_bounds(nums@, text@.len() as int) && lines_view(lines@)
                == lines_of(nums@, text@),
            Err(e) => e == SearchError::RecordOutOfRange && !pairs_in_bounds(
                nums@,
                text@.len() as int,
            ),
        },
{
    let tlen = text.len();
    let n = nums.len();
    let mut lines: Vec<Vec<u8>> = Vec::new();
    let mut i: usize = 0;
    while i < n
        invariant
            i <= n,
            n == nums@.len(),
            tlen == text@.len(),
            lines_view(lines@) == lines_of(nums@.take(i as int), text@),
            forall|k: int| 0 <= k < i ==> (#[trigger] nums@[k]).0 + nums@[k].1 <= tlen,
        decreases n - i,
    {
        let p = nums[i];
        let off = p.0 as usize;
        let len = p.1 as usize;
        if off > tlen || len > tlen - off {
            return Err(SearchError::RecordOutOfRange);
        }
        let line = vstd::slice::slice_to_vec(vstd::slice::slice_subrange(
            text.as_slice(),
            off,
            off + len,
        ));
        let ghost pre = lines@;
        lines.push(line);
        proof {
            assert(nums@.take(i + 1).drop_last() =~= nums@.take(i as int));
            assert(nums@.take(i + 1).last() == nums@[i as int]);
            assert(lines_view(lines@) =~= lines_view(pre).push(line@));
            assert(lines_view(lines@) =~= lines_of(nums@.take(i + 1), text@));
        }
        i = i + 1;
    }
    proof {
        assert(nums@.take(n as int) =~= nums@);
    }
    Ok(lines)
}

/// Retrieves the candidate lines and keeps only those that really contain
/// the query, in retrieval order: the key match is necessary but, for
/// queries shorter than the key width, checked again here for certainty.
pub fn load_then_filter(input: &Vec<u8>, nums: &Vec<(u32, u32)>, text: &Vec<u8>) -> (r: Result<
    Vec<Vec<u8>>,
    SearchError,
>)
    ensures
        match r {
            Ok(out) => pairs_in_bounds(nums@, text@.len() as int) && lines_view(out@) == lines_of(
                nums@,
                text@,
            ).filter(contains_pred(input@)),
            Err(e) => e == SearchError::RecordOutOfRange && !pairs_in_bounds(
                nums@,
                text@.len() as int,
            ),
        },
{
    let lines = match load(nums, text) {
        Ok(lines) => lines,
        Err(e) => {
            return Err(e);
        },
    };
    let n = lines.len();
    let mut out: Vec<Vec<u8>> = Vec::new();
    let mut i: usize = 0;
    while i < n
        invariant
            i <= n,
            n == lines@.len(),
            lines_view(lines@) == lines_of(nums@, text@),
            lines_view(out@) == lines_view(lines@).take(i as int).filter(contains_pred(input@)),
        decreases n - i,
    {
        let keep = crate::bytes::contains_bytes(lines[i].as_slice(), input.as_slice());
        let ghost pre = out@;
        if keep {
            let line = copy_bytes(&lines[i]);
            out.push(line);
        }
        proof {
            let pred = contains_pred(input@);
            let t1 = lines_view(lines@).take(i + 1);
            assert(t1.drop_last() =~= lines_view(lines@).take(i as int));
            assert(t1.last() == lines@[i as int]@);
            assert(pred(lines@[i as int]@) == keep);
            reveal(Seq::filter);
            if keep {
                assert(lines_view(out@) =~= lines_view(pre).push(lines@[i as int]@));
            }
            assert(lines_view(out@) =~= t1.filter(pred));
        }
        i = i + 1;
    }
    proof {
        assert(lines_view(lines@).take(n as int) =~= lines_view(lines@));
    }
    Ok(out)
}

/// The candidate range is never reversed: its start stays at or before its
/// end.
pub proof fn lemma_range_lo_le_hi(k: Seq<u8>, q: Seq<u8>)
    requires
        keyfile_sorted(k),
    ensures
        1 <= range_lo(k, q) <= range_hi(k, q) <= vstd::math::max(num_blocks(k), 1),
{
    let h = search_key(q);
    let m = mask_len(h) as int;
    lemma_first_not_lt(k, h, m, 0);
    lemma_first_gt(k, h, m, 0);
    let b = lower_bound(k, h);
    let e = upper_bound(k, h);
    if e < b {
        assert(e < num_blocks(k));
        assert(crate::locate::masked_gt(k, e, h, m));
        assert(crate::locate::masked_lt(k, e, h, m));
        crate::bytes::lemma_lex_asymmetric(
            crate::locate::masked_key(k, e, m),
            h.take(m),
        );
    }
}

} // verus!
