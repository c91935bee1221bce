//! The library's laws: properties that hold across functions, stated over
//! the same spec functions that the executable contracts use.

use vstd::prelude::*;

use crate::bytes::{contains_seq, matches_at};
use crate::builder::{index_entries, keyfile_of, payload_of};
use crate::print::{not_starts_pred, starts_pred};
use crate::search::{
    contains_pred, dedup_pairs, lines_of, pair_le, pair_order, range_pairs, search_result,
    sorted_pairs, RESULT_CAP, lemma_pair_total_ordering, lemma_sorted_pairs_bridge,
};

verus! {

broadcast use vstd::seq_lib::group_to_multiset_ensures;

/// Building the index is deterministic: byte-identical corpora always yield
/// byte-identical key and payload files. `build_index` ensures its output
/// equals these functions of the corpus bytes alone, so two builds agree.
pub proof fn lemma_build_deterministic(c1: Seq<u8>, c2: Seq<u8>)
    requires
        c1 == c2,
    ensures
        keyfile_of(index_entries(c1)) == keyfile_of(index_entries(c2)),
        payload_of(index_entries(c1)) == payload_of(index_entries(c2)),
{
}

/// The empty query returns no candidate records, whatever the index holds;
/// `ngram_search` returns this result before it reads either file.
pub proof fn lemma_empty_query(k: Seq<u8>, index: Seq<u8>)
    ensures
        search_result(k, index, Seq::<u8>::empty()) == Seq::<(u32, u32)>::empty(),
{
}

/// A filter keeps nothing when no element satisfies the predicate.
pub proof fn lemma_filter_none<A>(s: Seq<A>, pred: spec_fn(A) -> bool)
    requires
        forall|i: int| 0 <= i < s.len() ==> !pred(#[trigger] s[i]),
    ensures
        s.filter(pred) == Seq::<A>::empty(),
    decreases s.len(),
{
    reveal(Seq::filter);
    if s.len() > 0 {
        lemma_filter_none(s.drop_last(), pred);
    }
}

/// A query inside part of the corpus is inside the corpus.
pub proof fn lemma_contains_in_subrange(text: Seq<u8>, a: int, b: int, q: Seq<u8>)
    requires
        0 <= a <= b <= text.len(),
        contains_seq(text.subrange(a, b), q),
    ensures
        contains_seq(text, q),
{
    let part = text.subrange(a, b);
    let i = choose|i: int| matches_at(part, q, i);
    assert(part.subrange(i, i + q.len()) =~= text.subrange(a + i, a + i + q.len()));
    assert(matches_at(text, q, a + i));
}

/// No match: a query that occurs nowhere in the corpus ends with an empty
/// result set, whatever candidate records the index range produced.
pub proof fn lemma_no_match(q: Seq<u8>, nums: Seq<(u32, u32)>, text: Seq<u8>)
    requires
        !contains_seq(text, q),
        forall|i: int| 0 <= i < nums.len() ==> (#[trigger] nums[i]).0 + nums[i].1 <= text.len(),
    ensures
        lines_of(nums, text).filter(contains_pred(q)) == Seq::<Seq<u8>>::empty(),
{
    let lines = lines_of(nums, text);
    let pred = contains_pred(q);
    assert forall|i: int| 0 <= i < lines.len() implies !pred(#[trigger] lines[i]) by {
        let p = nums[i];
        if pred(lines[i]) {
            lemma_contains_in_subrange(text, p.0 as int, p.0 + p.1, q);
        }
    }
    lemma_filter_none(lines, pred);
}

/// Everything in the deduplicated sequence was in the input, and the other
/// way round.
pub proof fn lemma_dedup_pairs_contains(s: Seq<(u32, u32)>)
    ensures
        forall|x: (u32, u32)| #[trigger] dedup_pairs(s).contains(x) <==> s.contains(x),
    decreases s.len(),
{
    if s.len() > 1 {
        lemma_dedup_pairs_contains(s.drop_last());
        assert forall|x: (u32, u32)| #[trigger] s.contains(x) implies (s.drop_last().contains(x)
            || x == s.last()) by {
            let i = choose|i: int| 0 <= i < s.len() && s[i] == x;
            if i < s.len() - 1 {
                assert(s.drop_last()[i] == x);
            }
        }
        assert forall|x: (u32, u32)| s.drop_last().contains(x) implies #[trigger] s.contains(
            x,
        ) by {
            let i = choose|i: int| 0 <= i < s.drop_last().len() && s.drop_last()[i] == x;
            assert(s[i] == x);
        }
        if s[s.len() - 1] == s[s.len() - 2] {
            assert(dedup_pairs(s) == dedup_pairs(s.drop_last()));
            assert(s.drop_last().contains(s.last())) by {
                assert(s.drop_last()[s.len() - 2] == s.last());
            }
        } else {
            let d0 = dedup_pairs(s.drop_last());
            assert(dedup_pairs(s) == d0.push(s.last()));
            assert forall|x: (u32, u32)| #[trigger] dedup_pairs(s).contains(x) implies s.contains(
                x,
            ) by {
                let i = choose|i: int|
                    0 <= i < d0.push(s.last()).len() && d0.push(s.last())[i] == x;
                if i < d0.len() {
                    assert(d0[i] == x);
                    assert(d0.contains(x));
                    assert(s.drop_last().contains(x));
                } else {
                    assert(x == s.last());
                    assert(s[s.len() - 1] == x);
                }
            }
            assert forall|x: (u32, u32)| s.contains(x) implies #[trigger] dedup_pairs(s).contains(
                x,
            ) by {
                if s.drop_last().contains(x) {
                    assert(d0.contains(x));
                    let i = choose|i: int| 0 <= i < d0.len() && d0[i] == x;
                    assert(d0.push(s.last())[i] == x);
                    assert(dedup_pairs(s).contains(x)) by {
                        assert(dedup_pairs(s)[i] == x);
                    }
                } else {
                    assert(x == s.last());
                    assert(dedup_pairs(s)[d0.len() as int] == x);
                }
            }
        }
    }
}

/// Deduplicating a sorted sequence keeps it sorted.
pub proof fn lemma_dedup_pairs_sorted(s: Seq<(u32, u32)>)
    requires
        sorted_pairs(s),
    ensures
        sorted_pairs(dedup_pairs(s)),
    decreases s.len(),
{
    if s.len() > 1 {
        assert forall|i: int, j: int| 0 <= i < j < s.drop_last().len() implies pair_le(
            #[trigger] s.drop_last()[i],
            #[trigger] s.drop_last()[j],
        ) by {
            assert(pair_le(s[i], s[j]));
        }
        lemma_dedup_pairs_sorted(s.drop_last());
        if s[s.len() - 1] != s[s.len() - 2] {
            lemma_dedup_pairs_contains(s.drop_last());
            let d = dedup_pairs(s.drop_last()).push(s.last());
            assert forall|i: int, j: int| 0 <= i < j < d.len() implies pair_le(
                #[trigger] d[i],
                #[trigger] d[j],
            ) by {
                if j < d.len() - 1 {
                    assert(pair_le(dedup_pairs(s.drop_last())[i], dedup_pairs(s.drop_last())[j]));
                } else {
                    let x = d[i];
                    assert(s.drop_last().contains(x)) by {
                        assert(dedup_pairs(s.drop_last()).contains(x)) by {
                            assert(dedup_pairs(s.drop_last())[i] == x);
                        }
                    }
                    let u = choose|u: int|
                        0 <= u < s.drop_last().len() && s.drop_last()[u] == x;
                    assert(pair_le(s[u], s[s.len() - 1]));
                }
            }
        }
    }
}

/// A prefix of a sorted sequence is sorted.
pub proof fn lemma_take_sorted(s: Seq<(u32, u32)>, n: int)
    requires
        sorted_pairs(s),
        0 <= n <= s.len(),
    ensures
        sorted_pairs(s.take(n)),
{
    assert forall|i: int, j: int| 0 <= i < j < s.take(n).len() implies pair_le(
        #[trigger] s.take(n)[i],
        #[trigger] s.take(n)[j],
    ) by {
        assert(pair_le(s[i], s[j]));
    }
}

/// Cap enforcement: a query never reports more than the cap, what it reports
/// is in report order, and when the candidates exceed the cap the report is
/// exactly the first cap-many of the sorted, deduplicated candidates — every
/// reported record is at or below every candidate, reported or not.
pub proof fn lemma_cap_enforced(k: Seq<u8>, index: Seq<u8>, q: Seq<u8>)
    ensures
        search_result(k, index, q).len() <= RESULT_CAP,
        sorted_pairs(search_result(k, index, q)),
        ({
            let sorted = dedup_pairs(
                range_pairs(index, crate::search::range_lo(k, q), crate::search::range_hi(k, q)).sort_by(
                    pair_order(),
                ),
            );
            sorted.len() > RESULT_CAP && q.len() > 0 && crate::locate::num_blocks(k) >= 2
                ==> search_result(k, index, q) == sorted.take(RESULT_CAP as int) && forall|
                i: int,
                j: int,
            |
                0 <= i < RESULT_CAP <= j < sorted.len() ==> pair_le(
                    #[trigger] search_result(k, index, q)[i],
                    #[trigger] sorted[j],
                )
        }),
{
    if q.len() != 0 && crate::locate::num_blocks(k) >= 2 {
        let raw = range_pairs(index, crate::search::range_lo(k, q), crate::search::range_hi(k, q));
        lemma_pair_total_ordering();
        raw.lemma_sort_by_ensures(pair_order());
        lemma_sorted_pairs_bridge(raw.sort_by(pair_order()));
        lemma_dedup_pairs_sorted(raw.sort_by(pair_order()));
        let sorted = dedup_pairs(raw.sort_by(pair_order()));
        if sorted.len() > RESULT_CAP {
            lemma_take_sorted(sorted, RESULT_CAP as int);
        }
    }
}

/// What `build_index` hands back can always be searched: the key file it
/// writes is sorted and both files fit their strides, which is all that
/// `ngram_search` asks of an index.
pub proof fn lemma_built_index_is_searchable(c: Seq<u8>)
    requires
        c.len() + 13 < 0x1_0000_0000,
    ensures
        crate::locate::keyfile_sorted(keyfile_of(index_entries(c))),
        crate::search::index_sizes_ok(keyfile_of(index_entries(c)), payload_of(index_entries(c))),
{
    crate::builder::lemma_index_entries(c);
    let entries = index_entries(c);
    assert(forall|i: int|
        0 <= i < entries.len() ==> (#[trigger] entries[i]).key.len() == 12) by {
        assert(forall|i: int|
            0 <= i < entries.len() ==> crate::builder::wf_seg(#[trigger] entries[i]));
    }
    crate::builder::lemma_keyfile_sorted(entries);
    crate::builder::lemma_keyfile_structure(entries);
    crate::builder::lemma_payload_structure(entries);
    assert(keyfile_of(entries).len() == 12 * entries.len());
    assert(payload_of(entries).len() == 8 * entries.len());
}

/// A search key whose bytes are zero from position `n` on masks to at most
/// `n` bytes.
pub proof fn lemma_mask_len_bound(h: Seq<u8>, n: int)
    requires
        0 <= n <= h.len(),
        forall|i: int| n <= i < h.len() ==> h[i] == 0,
    ensures
        crate::locate::mask_len(h) <= n,
    decreases h.len(),
{
    if h.len() > 0 && h.last() == 0 {
        if n <= h.len() - 1 {
            lemma_mask_len_bound(h.drop_last(), n);
        } else {
            lemma_mask_len_bound(h.drop_last(), h.len() - 1);
        }
    }
}

/// The records of a block range, one per block, in block order.
pub proof fn lemma_range_pairs_structure(index: Seq<u8>, lo: int, hi: int)
    requires
        lo <= hi,
    ensures
        range_pairs(index, lo, hi).len() == hi - lo,
        forall|j: int|
            0 <= j < hi - lo ==> range_pairs(index, lo, hi)[j] == crate::search::pair_at(
                index,
                lo + j,
            ),
    decreases hi - lo,
{
    if lo < hi {
        lemma_range_pairs_structure(index, lo, hi - 1);
    }
}

/// Sorting keeps every record.
pub proof fn lemma_sort_keeps_pairs(s: Seq<(u32, u32)>, x: (u32, u32))
    requires
        s.contains(x),
    ensures
        s.sort_by(pair_order()).contains(x),
{
    lemma_pair_total_ordering();
    s.lemma_sort_by_ensures(pair_order());
    assert(s.to_multiset() =~= s.sort_by(pair_order()).to_multiset());
    assert(s.to_multiset().count(x) > 0);
    assert(s.sort_by(pair_order()).contains(x));
}

/// Round-trip containment: querying any substring of at most key width taken
/// from a corpus line reports that line's own record, and the line survives
/// the containment filter. Three kinds of input are left out, where the
/// engine by design reports less: an index of fewer than four blocks, whose
/// clamped bisections always yield the empty range; a substring whose
/// segment is the index's very first entry, which the clamp hides; and a
/// query whose candidates exceed the result cap, where truncation may cut
/// the record away.
#[verifier::rlimit(100)]
#[verifier::spinoff_prover]
pub proof fn lemma_round_trip(c: Seq<u8>, start: int, p: int, qlen: int)
    requires
        c.len() + 13 < 0x1_0000_0000,
        0 <= start <= c.len(),
        start == 0 || c[start - 1] == 0x0a,
        start <= p,
        0 < qlen <= 12,
        p + qlen <= start + crate::builder::nl_dist(c, start),
        crate::locate::num_blocks(keyfile_of(index_entries(c))) >= 4,
        index_entries(c)[0] != crate::builder::line_segment(c, start, p),
        ({
            let q = c.subrange(p, p + qlen);
            let kf = keyfile_of(index_entries(c));
            let pf = payload_of(index_entries(c));
            dedup_pairs(
                range_pairs(
                    pf,
                    crate::search::range_lo(kf, q),
                    crate::search::range_hi(kf, q),
                ).sort_by(pair_order()),
            ).len() <= RESULT_CAP
        }),
    ensures
        ({
            let q = c.subrange(p, p + qlen);
            let kf = keyfile_of(index_entries(c));
            let pf = payload_of(index_entries(c));
            let d = crate::builder::nl_dist(c, start) as int;
            &&& search_result(kf, pf, q).contains((start as u32, d as u32))
            &&& lines_of(search_result(kf, pf, q), c).filter(contains_pred(q)).contains(
                c.subrange(start, start + d),
            )
        }),
{
    let q = c.subrange(p, p + qlen);
    let entries = index_entries(c);
    let kf = keyfile_of(entries);
    let pf = payload_of(entries);
    let seg = crate::builder::line_segment(c, start, p);
    let d = crate::builder::nl_dist(c, start) as int;
    crate::builder::lemma_nl_dist(c, start);
    let line = c.subrange(start, start + d);

    // The line's segment for position `p` is among the index entries.
    crate::builder::lemma_line_segment_in_corpus(c, 0, start, p);
    crate::builder::lemma_index_entries(c);
    assert(entries.contains(seg));
    let i0 = choose|i: int| 0 <= i < entries.len() && entries[i] == seg;
    assert(i0 >= 1);

    // The serialized files carry the entries' keys and records in place.
    assert(forall|i: int|
        0 <= i < entries.len() ==> (#[trigger] entries[i]).key.len() == 12) by {
        assert(forall|i: int|
            0 <= i < entries.len() ==> crate::builder::wf_seg(#[trigger] entries[i]));
    }
    crate::builder::lemma_keyfile_sorted(entries);
    crate::builder::lemma_keyfile_structure(entries);
    crate::builder::lemma_payload_structure(entries);
    let nb = crate::locate::num_blocks(kf);
    assert(nb == entries.len());

    // The masked part of the search key is a verbatim window of the line,
    // and the entry's key carries the same window.
    let h = crate::locate::search_key(q);
    crate::locate::lemma_mask_len_le(h);
    lemma_mask_len_bound(h, qlen);
    let m = crate::locate::mask_len(h) as int;
    assert(crate::locate::key_at(kf, i0) == seg.key);
    assert(seg.key.take(m) =~= h.take(m)) by {
        assert forall|i: int| 0 <= i < m implies seg.key[i] == h[i] by {
            assert(seg.key[i] == crate::builder::key_of_line(line, p - start)[i]);
            assert(p - start + i < d);
            assert(line[p - start + i] == c[p + i]);
            assert(h[i] == q[i]);
            assert(q[i] == c[p + i]);
        }
    }
    assert(!crate::locate::masked_lt(kf, i0, h, m) && !crate::locate::masked_gt(kf, i0, h, m))
        by {
        assert(crate::locate::masked_key(kf, i0, m) == h.take(m));
        crate::bytes::lemma_lex_irreflexive(h.take(m));
    }

    // The bisection bounds bracket the entry.
    crate::locate::lemma_first_not_lt(kf, h, m, 0);
    crate::locate::lemma_first_gt(kf, h, m, 0);
    let b = crate::locate::lower_bound(kf, h);
    let e = crate::locate::upper_bound(kf, h);
    assert(b <= i0);
    assert(i0 < e) by {
        if e <= i0 {
            crate::locate::lemma_sorted_bounds(kf, h, m, e, i0);
        }
    }
    let lo = crate::search::range_lo(kf, q);
    let hi = crate::search::range_hi(kf, q);
    assert(lo <= i0 < hi);

    // The entry's record is among the candidates, and survives sorting,
    // deduplication, and — uncapped — the cut.
    assert(crate::search::pair_at(pf, i0) == (seg.offset as u32, seg.length as u32));
    assert(seg.offset == start && seg.length == d);
    let raw = range_pairs(pf, lo, hi);
    lemma_range_pairs_structure(pf, lo, hi);
    assert(raw[i0 - lo] == (start as u32, d as u32));
    assert(raw.contains((start as u32, d as u32)));
    lemma_sort_keeps_pairs(raw, (start as u32, d as u32));
    lemma_dedup_pairs_contains(raw.sort_by(pair_order()));
    let res = search_result(kf, pf, q);
    assert(q.len() > 0);
    assert(res == dedup_pairs(raw.sort_by(pair_order())));
    assert(res.contains((start as u32, d as u32)));

    // The retrieved line is the whole containing line and holds the query.
    let ip = choose|i: int| 0 <= i < res.len() && res[i] == (start as u32, d as u32);
    assert(lines_of(res, c)[ip] == c.subrange(start, start + d)) by {
        assert((start as u32) as int == start);
        assert((d as u32) as int == d);
    }
    assert(contains_pred(q)(line)) by {
        assert(line.subrange(p - start, p - start + qlen) =~= q);
        assert(matches_at(line, q, p - start));
    }
    lines_of(res, c).lemma_filter_contains(contains_pred(q), ip);
}

/// Ordering: in a reordered result, every line that starts with the query
/// stands before every line that merely contains it; retrieval order is kept
/// within each part.
pub proof fn lemma_reorder_partition(q: Seq<u8>, lines: Seq<Seq<u8>>)
    ensures
        ({
            let r = lines.filter(starts_pred(q)) + lines.filter(not_starts_pred(q));
            let boundary = lines.filter(starts_pred(q)).len() as int;
            &&& forall|u: int|
                0 <= u < boundary ==> crate::bytes::starts_with_seq(#[trigger] r[u], q)
            &&& forall|v: int|
                boundary <= v < r.len() ==> !crate::bytes::starts_with_seq(#[trigger] r[v], q)
        }),
{
    broadcast use vstd::seq_lib::group_filter_ensures;

    let r = lines.filter(starts_pred(q)) + lines.filter(not_starts_pred(q));
    let boundary = lines.filter(starts_pred(q)).len() as int;
    assert forall|u: int| 0 <= u < boundary implies crate::bytes::starts_with_seq(
        #[trigger] r[u],
        q,
    ) by {
        assert(r[u] == lines.filter(starts_pred(q))[u]);
        assert(starts_pred(q)(lines.filter(starts_pred(q))[u]));
    }
    assert forall|v: int| boundary <= v < r.len() implies !crate::bytes::starts_with_seq(
        #[trigger] r[v],
        q,
    ) by {
        assert(r[v] == lines.filter(not_starts_pred(q))[v - boundary]);
        assert(not_starts_pred(q)(lines.filter(not_starts_pred(q))[v - boundary]));
    }
}

} // verus!
