//! Index construction: segment extraction from corpus lines, sorting,
//! deduplication, and serialization into the key file / payload file pair.

use vstd::prelude::*;
use vstd::relations::{sorted_by, total_ordering};

use crate::bytes::{lex_lt, lemma_lex_asymmetric, lemma_lex_transitive, lemma_lex_trichotomy};

verus! {

broadcast use
    vstd::array::group_array_axioms,
    vstd::seq_lib::group_to_multiset_ensures,
    vstd::multiset::group_multiset_axioms,
;

/// One pre-sort index entry: a fixed-width search key taken from some byte
/// position of a corpus line, together with the byte offset and byte length
/// of the whole containing line.
#[derive(Clone, Copy)]
pub struct Segment {
    /// Corpus bytes from the segment's position, zero-padded on the right.
    pub key: [u8; 12],
    /// Byte offset of the containing line's start in the corpus file.
    pub offset: u32,
    /// Byte length of the containing line.
    pub length: u32,
}

/// The mathematical content of a `Segment`.
pub ghost struct SegModel {
    pub key: Seq<u8>,
    pub offset: int,
    pub length: int,
}

impl View for Segment {
    type V = SegModel;

    open spec fn view(&self) -> SegModel {
        SegModel { key: self.key@, offset: self.offset as int, length: self.length as int }
    }
}

/// A segment model as extraction produces it: a 12-byte key and
/// offset/length that fit the on-disk 32-bit fields.
pub open spec fn wf_seg(s: SegModel) -> bool {
    s.key.len() == 12 && 0 <= s.offset < 0x1_0000_0000 && 0 <= s.length < 0x1_0000_0000
}

/// The order the index is sorted by: keys byte-lexicographically, ties by
/// offset, then by length.
pub open spec fn model_le(a: SegModel, b: SegModel) -> bool {
    if a.key != b.key {
        lex_lt(a.key, b.key)
    } else if a.offset != b.offset {
        a.offset < b.offset
    } else {
        a.length <= b.length
    }
}

/// The segment order as a first-class relation, for `sort_by`.
pub open spec fn model_order() -> spec_fn(SegModel, SegModel) -> bool {
    |a: SegModel, b: SegModel| model_le(a, b)
}

/// `model_le` is transitive.
pub proof fn lemma_model_le_trans(a: SegModel, b: SegModel, c: SegModel)
    requires
        model_le(a, b),
        model_le(b, c),
    ensures
        model_le(a, c),
{
    if a.key != b.key && b.key != c.key {
        lemma_lex_transitive(a.key, b.key, c.key);
        lemma_lex_asymmetric(a.key, b.key);
    }
}

/// Any two segment models are comparable under `model_le`.
pub proof fn lemma_model_le_total(a: SegModel, b: SegModel)
    ensures
        model_le(a, b) || model_le(b, a),
{
    lemma_lex_trichotomy(a.key, b.key);
}

/// Segment sequences in index order.
pub open spec fn sorted_segs(s: Seq<SegModel>) -> bool {
    forall|i: int, j: int| 0 <= i < j < s.len() ==> model_le(#[trigger] s[i], #[trigger] s[j])
}

/// `sorted_segs` says the same as vstd's `sorted_by` under the segment order.
pub proof fn lemma_sorted_segs_bridge(s: Seq<SegModel>)
    ensures
        sorted_segs(s) <==> sorted_by(s, model_order()),
{
    let leq = model_order();
    if sorted_segs(s) {
        assert forall|i: int, j: int| 0 <= i < j < s.len() implies #[trigger] leq(s[i], s[j]) by {
            assert(model_le(s[i], s[j]));
        }
    }
    if sorted_by(s, leq) {
        assert forall|i: int, j: int| 0 <= i < j < s.len() implies model_le(
            #[trigger] s[i],
            #[trigger] s[j],
        ) by {
            assert(leq(s[i], s[j]));
        }
    }
}

/// The segment order is a total order, so sorting by it has a unique result.
pub proof fn lemma_model_total_ordering()
    ensures
        total_ordering(model_order()),
{
    let leq = model_order();
    assert forall|a: SegModel| #[trigger] leq(a, a) by {}
    assert forall|a: SegModel, b: SegModel| #[trigger] leq(a, b) && #[trigger] leq(b, a)
        implies a == b by {
        if a.key != b.key {
            lemma_lex_asymmetric(a.key, b.key);
        }
    }
    assert forall|a: SegModel, b: SegModel, c: SegModel|
        #[trigger] leq(a, b) && #[trigger] leq(b, c) implies leq(a, c) by {
        if a.key != b.key && b.key != c.key {
            lemma_lex_transitive(a.key, b.key, c.key);
            lemma_lex_asymmetric(a.key, b.key);
        }
    }
    assert forall|a: SegModel, b: SegModel| #[trigger] leq(a, b) || #[trigger] leq(b, a) by {
        lemma_lex_trichotomy(a.key, b.key);
    }
}

/// The key that segment extraction assigns to position `p` of `line`: the
/// next 12 bytes, zero-padded where the line ends early.
pub open spec fn key_of_line(line: Seq<u8>, p: int) -> Seq<u8> {
    Seq::new(12, |i: int| if p + i < line.len() { line[p + i] } else { 0 })
}

/// The segments of one line at corpus offset `off`: one per byte position.
pub open spec fn segments_of_line(line: Seq<u8>, off: int) -> Seq<SegModel> {
    Seq::new(line.len(), |p: int| SegModel { key: key_of_line(line, p), offset: off, length: line.len() as int })
}

/// The segment views of a vector of segments.
pub open spec fn segs_view(s: Seq<Segment>) -> Seq<SegModel> {
    s.map_values(|x: Segment| x@)
}

/// Appends to `words` one segment for every byte position of `line`, so that
/// a query matching anywhere inside the line can find it; every segment's
/// payload points back at the whole line.
pub fn add_segments(words: &mut Vec<Segment>, line: &Vec<u8>, offset: u32)
    requires
        line@.len() + 12 < 0x1_0000_0000,
    ensures
        segs_view(final(words)@) == segs_view(old(words)@) + segments_of_line(
            line@,
            offset as int,
        ),
{
    let ghost orig = words@;
    let llen = line.len();
    let mut p: usize = 0;
    while p < llen
        invariant
            p <= llen,
            llen == line@.len(),
            llen + 12 < 0x1_0000_0000,
            segs_view(words@) == segs_view(orig) + segments_of_line(line@, offset as int).take(p as int),
        decreases llen - p,
    {
        let mut key = [0u8; 12];
        let mut i: usize = 0;
        while i < 12
            invariant
                i <= 12,
                llen == line@.len(),
                llen + 12 < 0x1_0000_0000,
                p < llen,
                key@.len() == 12,
                forall|j: int| 0 <= j < i ==> key@[j] == key_of_line(line@, p as int)[j],
                forall|j: int| i <= j < 12 ==> key@[j] == 0,
            decreases 12 - i,
        {
            if p + i < llen {
                key[i] = line[p + i];
            }
            i = i + 1;
        }
        let seg = Segment { key, offset, length: llen as u32 };
        proof {
            assert(seg@.key =~= key_of_line(line@, p as int));
            assert(seg@ == segments_of_line(line@, offset as int)[p as int]);
        }
        let ghost pre = words@;
        words.push(seg);
        proof {
            let target = segs_view(orig) + segments_of_line(line@, offset as int).take(p + 1);
            assert(words@ == pre.push(seg));
            assert(segs_view(pre) == segs_view(orig) + segments_of_line(line@, offset as int).take(
                p as int,
            ));
            assert(segs_view(words@).len() == pre.len() + 1);
            assert(segs_view(words@)[pre.len() as int] == seg@);
            assert(p + 1 <= segments_of_line(line@, offset as int).len());
            assert(segments_of_line(line@, offset as int).take(p + 1).len() == p + 1);
            assert(segs_view(pre).len() == pre.len());
            assert(segs_view(orig).len() == orig.len());
            assert(pre.len() == orig.len() + p);
            assert(target.len() == pre.len() + 1);
            assert forall|k: int| 0 <= k < segs_view(words@).len() implies segs_view(words@)[k]
                == target[k] by {
                if k < pre.len() {
                    assert(segs_view(pre)[k] == (segs_view(orig) + segments_of_line(
                        line@,
                        offset as int,
                    ).take(p as int))[k]);
                }
            }
            assert(segs_view(words@) =~= target);
        }
        p = p + 1;
    }
    proof {
        assert(segments_of_line(line@, offset as int).take(llen as int) =~= segments_of_line(
            line@,
            offset as int,
        ));
    }
}

/// Executable form of the index order `model_le`.
pub fn seg_le_exec(a: &Segment, b: &Segment) -> (r: bool)
    ensures
        r == model_le(a@, b@),
{
    let ab = crate::bytes::lex_lt_bytes(a.key.as_slice(), b.key.as_slice());
    if ab {
        proof {
            crate::bytes::lemma_lex_irreflexive(a.key@);
        }
        return true;
    }
    let ba = crate::bytes::lex_lt_bytes(b.key.as_slice(), a.key.as_slice());
    if ba {
        proof {
            crate::bytes::lemma_lex_irreflexive(a.key@);
        }
        return false;
    }
    proof {
        lemma_lex_trichotomy(a.key@, b.key@);
    }
    if a.offset != b.offset {
        a.offset < b.offset
    } else {
        a.length <= b.length
    }
}

/// Merges two runs that are already in index order into one, keeping every
/// element of both.
fn merge_segments(a: Vec<Segment>, b: Vec<Segment>) -> (r: Vec<Segment>)
    requires
        sorted_segs(segs_view(a@)),
        sorted_segs(segs_view(b@)),
    ensures
        sorted_segs(segs_view(r@)),
        segs_view(r@).to_multiset() == segs_view(a@).to_multiset().add(
            segs_view(b@).to_multiset(),
        ),
        r@.len() == a@.len() + b@.len(),
{
    let alen = a.len();
    let blen = b.len();
    let mut out: Vec<Segment> = Vec::new();
    let mut i: usize = 0;
    let mut j: usize = 0;
    while i < alen || j < blen
        invariant
            i <= alen,
            j <= blen,
            alen == a@.len(),
            blen == b@.len(),
            sorted_segs(segs_view(a@)),
            sorted_segs(segs_view(b@)),
            out@.len() == i + j,
            sorted_segs(segs_view(out@)),
            segs_view(out@).to_multiset() == segs_view(a@.take(i as int)).to_multiset().add(
                segs_view(b@.take(j as int)).to_multiset(),
            ),
            forall|l: int, k: int|
                0 <= l < out@.len() && i <= k < alen ==> model_le(
                    #[trigger] segs_view(out@)[l],
                    #[trigger] segs_view(a@)[k],
                ),
            forall|l: int, k: int|
                0 <= l < out@.len() && j <= k < blen ==> model_le(
                    #[trigger] segs_view(out@)[l],
                    #[trigger] segs_view(b@)[k],
                ),
        decreases alen - i + blen - j,
    {
        let take_a = if j == blen {
            true
        } else if i == alen {
            false
        } else {
            seg_le_exec(&a[i], &b[j])
        };
        let ghost pre = out@;
        if take_a {
            let x = a[i];
            out.push(x);
            proof {
                assert(segs_view(out@) =~= segs_view(pre).push(x@));
                assert(a@.take(i + 1) =~= a@.take(i as int).push(a@[i as int]));
                assert(segs_view(a@.take(i + 1)) =~= segs_view(a@.take(i as int)).push(x@));
                assert(segs_view(pre).push(x@).to_multiset() == segs_view(pre).to_multiset().insert(
                    x@,
                ));
                assert(segs_view(a@.take(i as int)).push(x@).to_multiset() == segs_view(
                    a@.take(i as int),
                ).to_multiset().insert(x@));
                assert(segs_view(a@.take(i as int)).to_multiset().insert(x@).add(
                    segs_view(b@.take(j as int)).to_multiset(),
                ) =~= segs_view(a@.take(i as int)).to_multiset().add(
                    segs_view(b@.take(j as int)).to_multiset(),
                ).insert(x@));
                assert(segs_view(out@).to_multiset() =~= segs_view(a@.take(i + 1)).to_multiset()
                    .add(segs_view(b@.take(j as int)).to_multiset()));
                assert(x@ == segs_view(a@)[i as int]);
                // a[i] was taken, so it is below every remaining element of
                // both runs, which keeps the output sorted.
                assert forall|k: int| j <= k < blen implies model_le(
                    x@,
                    #[trigger] segs_view(b@)[k],
                ) by {
                    if k > j {
                        assert(model_le(segs_view(b@)[j as int], segs_view(b@)[k]));
                        lemma_model_le_trans(x@, segs_view(b@)[j as int], segs_view(b@)[k]);
                    }
                }
                assert forall|k: int| i + 1 <= k < alen implies model_le(
                    x@,
                    #[trigger] segs_view(a@)[k],
                ) by {
                    assert(model_le(segs_view(a@)[i as int], segs_view(a@)[k]));
                }
                assert forall|l: int, k: int|
                    0 <= l < out@.len() && 0 <= k < out@.len() && l < k implies model_le(
                    #[trigger] segs_view(out@)[l],
                    #[trigger] segs_view(out@)[k],
                ) by {
                    if k < pre.len() {
                        assert(model_le(segs_view(pre)[l], segs_view(pre)[k]));
                    } else {
                        assert(segs_view(out@)[k] == x@);
                        assert(model_le(segs_view(pre)[l], segs_view(a@)[i as int]));
                    }
                }
            }
            i = i + 1;
        } else {
            let x = b[j];
            out.push(x);
            proof {
                assert(segs_view(out@) =~= segs_view(pre).push(x@));
                assert(b@.take(j + 1) =~= b@.take(j as int).push(b@[j as int]));
                assert(segs_view(b@.take(j + 1)) =~= segs_view(b@.take(j as int)).push(x@));
                assert(segs_view(pre).push(x@).to_multiset() == segs_view(pre).to_multiset().insert(
                    x@,
                ));
                assert(segs_view(b@.take(j as int)).push(x@).to_multiset() == segs_view(
                    b@.take(j as int),
                ).to_multiset().insert(x@));
                assert(segs_view(a@.take(i as int)).to_multiset().add(
                    segs_view(b@.take(j as int)).to_multiset().insert(x@),
                ) =~= segs_view(a@.take(i as int)).to_multiset().add(
                    segs_view(b@.take(j as int)).to_multiset(),
                ).insert(x@));
                assert(segs_view(out@).to_multiset() =~= segs_view(a@.take(i as int)).to_multiset()
                    .add(segs_view(b@.take(j + 1)).to_multiset()));
                assert(x@ == segs_view(b@)[j as int]);
                // b[j] was taken because a[i] is not below it, so b[j] is
                // below every remaining element of both runs.
                if i < alen {
                    lemma_model_le_total(segs_view(a@)[i as int], x@);
                    assert(model_le(x@, segs_view(a@)[i as int]));
                }
                assert forall|k: int| i <= k < alen implies model_le(
                    x@,
                    #[trigger] segs_view(a@)[k],
                ) by {
                    if k > i {
                        assert(model_le(segs_view(a@)[i as int], segs_view(a@)[k]));
                        lemma_model_le_trans(x@, segs_view(a@)[i as int], segs_view(a@)[k]);
                    }
                }
                assert forall|k: int| j + 1 <= k < blen implies model_le(
                    x@,
                    #[trigger] segs_view(b@)[k],
                ) by {
                    assert(model_le(segs_view(b@)[j as int], segs_view(b@)[k]));
                }
                assert forall|l: int, k: int|
                    0 <= l < out@.len() && 0 <= k < out@.len() && l < k implies model_le(
                    #[trigger] segs_view(out@)[l],
                    #[trigger] segs_view(out@)[k],
                ) by {
                    if k < pre.len() {
                        assert(model_le(segs_view(pre)[l], segs_view(pre)[k]));
                    } else {
                        assert(segs_view(out@)[k] == x@);
                        assert(model_le(segs_view(pre)[l], segs_view(b@)[j as int]));
                    }
                }
            }
            j = j + 1;
        }
    }
    proof {
        assert(a@.take(alen as int) =~= a@);
        assert(b@.take(blen as int) =~= b@);
    }
    out
}

/// Sorts segments into the index order. The result is exactly
/// `sort_by(model_order())` of the input's models, so sorting is a function
/// of the extracted segments alone.
pub fn sort_segments(v: Vec<Segment>) -> (r: Vec<Segment>)
    ensures
        segs_view(r@) == segs_view(v@).sort_by(model_order()),
        r@.len() == v@.len(),
    decreases v@.len(),
{
    proof {
        lemma_model_total_ordering();
        segs_view(v@).lemma_sort_by_ensures(model_order());
    }
    if v.len() <= 1 {
        proof {
            vstd::seq_lib::lemma_sorted_unique(
                segs_view(v@),
                segs_view(v@).sort_by(model_order()),
                model_order(),
            );
        }
        return v;
    }
    let mut v = v;
    let ghost whole = v@;
    let mid = v.len() / 2;
    let right = v.split_off(mid);
    proof {
        let leq = model_order();
        segs_view(v@).lemma_sort_by_ensures(leq);
        segs_view(right@).lemma_sort_by_ensures(leq);
    }
    let ls = sort_segments(v);
    let rs = sort_segments(right);
    proof {
        lemma_sorted_segs_bridge(segs_view(ls@));
        lemma_sorted_segs_bridge(segs_view(rs@));
    }
    let r = merge_segments(ls, rs);
    proof {
        let leq = model_order();
        let left_part = whole.subrange(0, mid as int);
        let right_part = whole.subrange(mid as int, whole.len() as int);
        assert(whole =~= left_part + right_part);
        assert(segs_view(whole) =~= segs_view(left_part) + segs_view(right_part));
        vstd::seq_lib::lemma_multiset_commutative(segs_view(left_part), segs_view(right_part));
        segs_view(left_part).lemma_sort_by_ensures(leq);
        segs_view(right_part).lemma_sort_by_ensures(leq);
        lemma_sorted_segs_bridge(segs_view(r@));
        vstd::seq_lib::lemma_sorted_unique(segs_view(r@), segs_view(whole).sort_by(leq), leq);
    }
    r
}

/// Removal of adjacent duplicates, keeping the first of each run; on a sorted
/// sequence this removes every duplicate.
pub open spec fn dedup_segs(s: Seq<SegModel>) -> Seq<SegModel>
    decreases s.len(),
{
    if s.len() <= 1 {
        s
    } else if s[s.len() - 1] == s[s.len() - 2] {
        dedup_segs(s.drop_last())
    } else {
        dedup_segs(s.drop_last()).push(s.last())
    }
}

/// Whether two segments are equal in every field.
pub fn seg_eq_exec(a: &Segment, b: &Segment) -> (r: bool)
    ensures
        r == (a@ == b@),
{
    if a.offset != b.offset || a.length != b.length {
        return false;
    }
    let mut i: usize = 0;
    while i < 12
        invariant
            i <= 12,
            a.offset == b.offset,
            a.length == b.length,
            forall|j: int| 0 <= j < i ==> a.key@[j] == b.key@[j],
        decreases 12 - i,
    {
        if a.key[i] != b.key[i] {
            return false;
        }
        i = i + 1;
    }
    proof {
        assert(a.key@ =~= b.key@);
    }
    true
}

/// Removes exact adjacent duplicates, as full deduplication of the sorted
/// segment list requires.
pub fn dedup_segments(v: Vec<Segment>) -> (r: Vec<Segment>)
    ensures
        segs_view(r@) == dedup_segs(segs_view(v@)),
{
    let vlen = v.len();
    let mut out: Vec<Segment> = Vec::new();
    let mut i: usize = 0;
    while i < vlen
        invariant
            i <= vlen,
            vlen == v@.len(),
            segs_view(out@) == dedup_segs(segs_view(v@.take(i as int))),
        decreases vlen - i,
    {
        let keep = if i == 0 {
            true
        } else {
            !seg_eq_exec(&v[i - 1], &v[i])
        };
        let ghost pre = out@;
        if keep {
            let x = v[i];
            out.push(x);
            proof {
                assert(segs_view(out@) =~= segs_view(pre).push(x@));
            }
        }
        proof {
            let t1 = segs_view(v@.take(i + 1));
            assert(t1.drop_last() =~= segs_view(v@.take(i as int)));
            assert(t1.last() == segs_view(v@)[i as int]);
            if i > 0 {
                assert(t1[t1.len() - 2] == segs_view(v@)[i - 1]);
            }
        }
        i = i + 1;
    }
    proof {
        assert(v@.take(vlen as int) =~= v@);
    }
    out
}

/// Big-endian serialization of one 32-bit value.
pub open spec fn be32_bytes(x: int) -> Seq<u8> {
    seq![
        ((x / 0x100_0000) % 0x100) as u8,
        ((x / 0x1_0000) % 0x100) as u8,
        ((x / 0x100) % 0x100) as u8,
        (x % 0x100) as u8,
    ]
}

/// Appends `x` to `out` as four big-endian bytes.
pub fn push_be32(out: &mut Vec<u8>, x: u32)
    ensures
        final(out)@ == old(out)@ + be32_bytes(x as int),
{
    let ghost pre = out@;
    out.push((x / 0x100_0000) as u8);
    out.push(((x / 0x1_0000) % 0x100) as u8);
    out.push(((x / 0x100) % 0x100) as u8);
    out.push((x % 0x100) as u8);
    proof {
        assert(out@ =~= pre + be32_bytes(x as int));
    }
}

/// The key file contents for a list of index entries: each entry's 12-byte
/// key in order, no separators.
pub open spec fn keyfile_of(entries: Seq<SegModel>) -> Seq<u8>
    decreases entries.len(),
{
    if entries.len() == 0 {
        Seq::empty()
    } else {
        keyfile_of(entries.drop_last()) + entries.last().key
    }
}

/// The payload file contents: per entry, the big-endian offset then the
/// big-endian length, eight bytes in all, aligned with the key file by
/// entry position.
pub open spec fn payload_of(entries: Seq<SegModel>) -> Seq<u8>
    decreases entries.len(),
{
    if entries.len() == 0 {
        Seq::empty()
    } else {
        payload_of(entries.drop_last()) + be32_bytes(entries.last().offset) + be32_bytes(
            entries.last().length,
        )
    }
}

/// Serializes the sorted, deduplicated entries into the two parallel flat
/// files: the key file (stride 12) and the payload file (stride 8).
pub fn write_indices(data: &Vec<Segment>) -> (r: (Vec<u8>, Vec<u8>))
    ensures
        r.0@ == keyfile_of(segs_view(data@)),
        r.1@ == payload_of(segs_view(data@)),
{
    let dlen = data.len();
    let mut ngram: Vec<u8> = Vec::new();
    let mut index: Vec<u8> = Vec::new();
    let mut k: usize = 0;
    while k < dlen
        invariant
            k <= dlen,
            dlen == data@.len(),
            ngram@ == keyfile_of(segs_view(data@.take(k as int))),
            index@ == payload_of(segs_view(data@.take(k as int))),
        decreases dlen - k,
    {
        let ghost pre_ngram = ngram@;
        let mut i: usize = 0;
        while i < 12
            invariant
                i <= 12,
                k < dlen,
                dlen == data@.len(),
                ngram@ == pre_ngram + data@[k as int].key@.take(i as int),
            decreases 12 - i,
        {
            ngram.push(data[k].key[i]);
            proof {
                assert(ngram@ =~= pre_ngram + data@[k as int].key@.take(i + 1));
            }
            i = i + 1;
        }
        push_be32(&mut index, data[k].offset);
        push_be32(&mut index, data[k].length);
        proof {
            let t1 = segs_view(data@.take(k + 1));
            assert(t1.drop_last() =~= segs_view(data@.take(k as int)));
            assert(t1.last() == data@[k as int]@);
            assert(data@[k as int].key@.take(12) =~= data@[k as int].key@);
            assert(ngram@ == keyfile_of(t1));
            assert(index@ == payload_of(t1));
        }
        k = k + 1;
    }
    proof {
        assert(data@.take(dlen as int) =~= data@);
    }
    (ngram, index)
}

/// Distance from `start` to the next newline byte of `c`, or to the end of
/// `c` where none follows.
pub open spec fn nl_dist(c: Seq<u8>, start: int) -> nat
    decreases c.len() - start,
{
    if start < 0 || start >= c.len() {
        0
    } else if c[start] == 0x0a {
        0
    } else {
        1 + nl_dist(c, start + 1)
    }
}

/// What `nl_dist` finds: the bytes up to it are not newlines, and it stops
/// at a newline or at the end of the corpus.
pub proof fn lemma_nl_dist(c: Seq<u8>, start: int)
    requires
        0 <= start <= c.len(),
    ensures
        start + nl_dist(c, start) <= c.len(),
        forall|j: int| start <= j < start + nl_dist(c, start) ==> c[j] != 0x0a,
        start + nl_dist(c, start) < c.len() ==> c[start + nl_dist(c, start)] == 0x0a,
    decreases c.len() - start,
{
    if start < c.len() && c[start] != 0x0a {
        lemma_nl_dist(c, start + 1);
    }
}

/// `nl_dist` is the only distance with those properties.
pub proof fn lemma_nl_dist_unique(c: Seq<u8>, start: int, e: int)
    requires
        0 <= start <= e <= c.len(),
        forall|j: int| start <= j < e ==> c[j] != 0x0a,
        e < c.len() ==> c[e] == 0x0a,
    ensures
        nl_dist(c, start) == e - start,
    decreases e - start,
{
    if start < e {
        lemma_nl_dist_unique(c, start + 1, e);
    }
}

/// The segments of every line of `c` at or after byte position `start`,
/// lines being the maximal newline-free runs.
pub open spec fn corpus_segments_from(c: Seq<u8>, start: int) -> Seq<SegModel>
    decreases c.len() + 1 - start when start >= 0 via corpus_segments_from_decreases
{
    if start >= c.len() {
        Seq::empty()
    } else {
        let d = nl_dist(c, start) as int;
        segments_of_line(c.subrange(start, start + d), start) + corpus_segments_from(
            c,
            start + d + 1,
        )
    }
}

#[via_fn]
proof fn corpus_segments_from_decreases(c: Seq<u8>, start: int) {
    if 0 <= start < c.len() {
        lemma_nl_dist(c, start);
    }
}

/// Every segment of every line of the corpus, in corpus order.
pub open spec fn corpus_segments(c: Seq<u8>) -> Seq<SegModel> {
    corpus_segments_from(c, 0)
}

/// The index entries of a corpus: all segments, sorted and deduplicated.
pub open spec fn index_entries(c: Seq<u8>) -> Seq<SegModel> {
    dedup_segs(corpus_segments(c).sort_by(model_order()))
}

/// Extracts the segments of every corpus line, walking the newline-separated
/// lines in order; each line's offset is its start position in the corpus.
pub fn collect_segments(corpus: &Vec<u8>) -> (r: Vec<Segment>)
    requires
        corpus@.len() + 13 < 0x1_0000_0000,
    ensures
        segs_view(r@) == corpus_segments(corpus@),
{
    let clen = corpus.len();
    let mut words: Vec<Segment> = Vec::new();
    let mut start: usize = 0;
    while start < clen
        invariant
            clen == corpus@.len(),
            clen + 13 < 0x1_0000_0000,
            corpus_segments(corpus@) == segs_view(words@) + corpus_segments_from(
                corpus@,
                start as int,
            ),
        decreases clen + 1 - start,
    {
        let mut e: usize = start;
        while e < clen && corpus[e] != 0x0a
            invariant
                start <= e <= clen,
                clen == corpus@.len(),
                forall|j: int| start <= j < e ==> corpus@[j] != 0x0a,
            decreases clen - e,
        {
            e = e + 1;
        }
        proof {
            lemma_nl_dist_unique(corpus@, start as int, e as int);
        }
        let line = vstd::slice::slice_to_vec(vstd::slice::slice_subrange(
            corpus.as_slice(),
            start,
            e,
        ));
        let ghost pre = words@;
        add_segments(&mut words, &line, start as u32);
        proof {
            assert(segs_view(words@) + corpus_segments_from(corpus@, e + 1) =~= segs_view(pre)
                + corpus_segments_from(corpus@, start as int));
        }
        start = e + 1;
    }
    proof {
        assert(corpus_segments_from(corpus@, start as int) =~= Seq::<SegModel>::empty());
        assert(segs_view(words@) + Seq::<SegModel>::empty() =~= segs_view(words@));
    }
    words
}

/// Reading back four big-endian bytes gives the serialized value.
pub proof fn lemma_be32_roundtrip(x: int)
    requires
        0 <= x < 0x1_0000_0000,
    ensures
        crate::search::be32(be32_bytes(x)) == x,
{
    vstd::arithmetic::div_mod::lemma_fundamental_div_mod(x, 0x100);
    vstd::arithmetic::div_mod::lemma_fundamental_div_mod(x / 0x100, 0x100);
    vstd::arithmetic::div_mod::lemma_fundamental_div_mod(x / 0x1_0000, 0x100);
    vstd::arithmetic::div_mod::lemma_div_denominator(x, 0x100, 0x100);
    vstd::arithmetic::div_mod::lemma_div_denominator(x, 0x1_0000, 0x100);
    assert((x / 0x100) / 0x100 == x / 0x1_0000);
    assert((x / 0x1_0000) / 0x100 == x / 0x100_0000);
    assert(x / 0x100_0000 < 0x100);
    vstd::arithmetic::div_mod::lemma_small_mod((x / 0x100_0000) as nat, 0x100);
}

/// Where each entry's key lies in the key file: entry `i`'s twelve bytes
/// start at byte `12 * i`.
pub proof fn lemma_keyfile_structure(entries: Seq<SegModel>)
    requires
        forall|i: int| 0 <= i < entries.len() ==> (#[trigger] entries[i]).key.len() == 12,
    ensures
        keyfile_of(entries).len() == 12 * entries.len(),
        forall|i: int|
            0 <= i < entries.len() ==> crate::locate::key_at(keyfile_of(entries), i)
                == (#[trigger] entries[i]).key,
    decreases entries.len(),
{
    if entries.len() > 0 {
        assert forall|i: int| 0 <= i < entries.drop_last().len() implies (#[trigger] entries.drop_last()[i]).key.len() == 12 by {
            assert(entries[i].key.len() == 12);
        }
        lemma_keyfile_structure(entries.drop_last());
        let prev = keyfile_of(entries.drop_last());
        let n = entries.len() - 1;
        assert forall|i: int| 0 <= i < entries.len() implies crate::locate::key_at(
            keyfile_of(entries),
            i,
        ) == (#[trigger] entries[i]).key by {
            if i < n {
                assert(crate::locate::key_at(prev, i) == entries.drop_last()[i].key);
                assert(crate::locate::key_at(keyfile_of(entries), i) =~= crate::locate::key_at(
                    prev,
                    i,
                ));
            } else {
                assert(crate::locate::key_at(keyfile_of(entries), i) =~= entries.last().key);
            }
        }
    }
}

/// Where each entry's record lies in the payload file: entry `i`'s offset
/// and length are the two big-endian words starting at byte `8 * i`.
pub proof fn lemma_payload_structure(entries: Seq<SegModel>)
    requires
        forall|i: int| 0 <= i < entries.len() ==> wf_seg(#[trigger] entries[i]),
    ensures
        payload_of(entries).len() == 8 * entries.len(),
        forall|i: int|
            0 <= i < entries.len() ==> crate::search::pair_at(payload_of(entries), i) == (
                (#[trigger] entries[i]).offset as u32,
                entries[i].length as u32,
            ),
    decreases entries.len(),
{
    if entries.len() > 0 {
        assert forall|i: int| 0 <= i < entries.drop_last().len() implies wf_seg(
            #[trigger] entries.drop_last()[i],
        ) by {
            assert(wf_seg(entries[i]));
        }
        lemma_payload_structure(entries.drop_last());
        let prev = payload_of(entries.drop_last());
        let n = entries.len() - 1;
        let last = entries.last();
        lemma_be32_roundtrip(last.offset);
        lemma_be32_roundtrip(last.length);
        assert forall|i: int| 0 <= i < entries.len() implies crate::search::pair_at(
            payload_of(entries),
            i,
        ) == ((#[trigger] entries[i]).offset as u32, entries[i].length as u32) by {
            if i < n {
                assert(payload_of(entries).subrange(8 * i, 8 * i + 4) =~= prev.subrange(
                    8 * i,
                    8 * i + 4,
                ));
                assert(payload_of(entries).subrange(8 * i + 4, 8 * i + 8) =~= prev.subrange(
                    8 * i + 4,
                    8 * i + 8,
                ));
                assert(crate::search::pair_at(prev, i) == (
                    (entries.drop_last()[i]).offset as u32,
                    entries.drop_last()[i].length as u32,
                ));
                assert(entries.drop_last()[i] == entries[i]);
            } else {
                assert(payload_of(entries).subrange(8 * i, 8 * i + 4) =~= be32_bytes(last.offset));
                assert(payload_of(entries).subrange(8 * i + 4, 8 * i + 8) =~= be32_bytes(
                    last.length,
                ));
            }
        }
    }
}

/// Every segment a corpus yields is well formed, with its offset at or after
/// the scan's start.
pub proof fn lemma_corpus_segments_wf(c: Seq<u8>, t: int)
    requires
        0 <= t,
        c.len() + 13 < 0x1_0000_0000,
    ensures
        forall|i: int|
            0 <= i < corpus_segments_from(c, t).len() ==> wf_seg(
                #[trigger] corpus_segments_from(c, t)[i],
            ),
    decreases c.len() + 1 - t,
{
    if t < c.len() {
        lemma_nl_dist(c, t);
        let d = nl_dist(c, t) as int;
        lemma_corpus_segments_wf(c, t + d + 1);
        let line = c.subrange(t, t + d);
        assert forall|i: int| 0 <= i < corpus_segments_from(c, t).len() implies wf_seg(
            #[trigger] corpus_segments_from(c, t)[i],
        ) by {
            if i < d {
                assert(corpus_segments_from(c, t)[i] == segments_of_line(line, t)[i]);
                assert(key_of_line(line, i).len() == 12);
            } else {
                assert(corpus_segments_from(c, t)[i] == corpus_segments_from(c, t + d + 1)[i - d]);
            }
        }
    }
}

/// The model of the segment that position `p` of the line at `start`
/// contributes to the index.
pub open spec fn line_segment(c: Seq<u8>, start: int, p: int) -> SegModel {
    let d = nl_dist(c, start) as int;
    SegModel {
        key: key_of_line(c.subrange(start, start + d), p - start),
        offset: start,
        length: d,
    }
}

/// Every position of every line is represented among the corpus segments: a
/// scan from `t` reaches the line at `start` and emits its segment for
/// position `p`.
pub proof fn lemma_line_segment_in_corpus(c: Seq<u8>, t: int, start: int, p: int)
    requires
        0 <= t <= start <= c.len(),
        t == 0 || c[t - 1] == 0x0a,
        start == 0 || c[start - 1] == 0x0a,
        start <= p < start + nl_dist(c, start),
    ensures
        corpus_segments_from(c, t).contains(line_segment(c, start, p)),
    decreases c.len() + 1 - t,
{
    lemma_nl_dist(c, t);
    let dt = nl_dist(c, t) as int;
    if t == start {
        assert(p < c.len());
        let seg = line_segment(c, start, p);
        assert(segments_of_line(c.subrange(t, t + dt), t)[p - t] == seg);
        assert(corpus_segments_from(c, t)[p - t] == seg);
    } else {
        // The line at `t` ends at or before the newline just ahead of
        // `start`, so the scan's next line start is still at or before
        // `start`.
        assert(t < start);
        assert(c[start - 1] == 0x0a);
        assert(t + dt <= start - 1) by {
            if t + dt > start - 1 {
                assert(c[start - 1] != 0x0a);
            }
        }
        let t2 = t + dt + 1;
        assert(t2 == 0 || c[t2 - 1] == 0x0a) by {
            if t + dt < c.len() {
            } else {
                assert(t2 - 1 == c.len());
            }
        }
        lemma_line_segment_in_corpus(c, t2, start, p);
        let seg = line_segment(c, start, p);
        let rest = corpus_segments_from(c, t2);
        let j = choose|j: int| 0 <= j < rest.len() && rest[j] == seg;
        assert(corpus_segments_from(c, t)[dt + j] == seg);
    }
}

/// Removing adjacent duplicates keeps exactly the same set of segments.
pub proof fn lemma_dedup_segs_contains(s: Seq<SegModel>)
    ensures
        forall|x: SegModel| #[trigger] dedup_segs(s).contains(x) <==> s.contains(x),
    decreases s.len(),
{
    if s.len() > 1 {
        lemma_dedup_segs_contains(s.drop_last());
        assert forall|x: SegModel| #[trigger] s.contains(x) implies (s.drop_last().contains(x)
            || x == s.last()) by {
            let i = choose|i: int| 0 <= i < s.len() && s[i] == x;
            if i < s.len() - 1 {
                assert(s.drop_last()[i] == x);
            }
        }
        assert forall|x: SegModel| s.drop_last().contains(x) implies #[trigger] s.contains(x) by {
            let i = choose|i: int| 0 <= i < s.drop_last().len() && s.drop_last()[i] == x;
            assert(s[i] == x);
        }
        if s[s.len() - 1] == s[s.len() - 2] {
            assert(dedup_segs(s) == dedup_segs(s.drop_last()));
            assert(s.drop_last().contains(s.last())) by {
                assert(s.drop_last()[s.len() - 2] == s.last());
            }
        } else {
            let d0 = dedup_segs(s.drop_last());
            assert(dedup_segs(s) == d0.push(s.last()));
            assert forall|x: SegModel| #[trigger] dedup_segs(s).contains(x) implies s.contains(
                x,
            ) by {
                let i = choose|i: int|
                    0 <= i < d0.push(s.last()).len() && d0.push(s.last())[i] == x;
                if i < d0.len() {
                    assert(d0[i] == x);
                    assert(d0.contains(x));
                    assert(s.drop_last().contains(x));
                } else {
                    assert(x == s.last());
                    assert(s[s.len() - 1] == x);
                }
            }
            assert forall|x: SegModel| s.contains(x) implies #[trigger] dedup_segs(s).contains(
                x,
            ) by {
                if s.drop_last().contains(x) {
                    assert(d0.contains(x));
                    let i = choose|i: int| 0 <= i < d0.len() && d0[i] == x;
                    assert(d0.push(s.last())[i] == x);
                    assert(dedup_segs(s).contains(x)) by {
                        assert(dedup_segs(s)[i] == x);
                    }
                } else {
                    assert(x == s.last());
                    assert(dedup_segs(s)[d0.len() as int] == x);
                }
            }
        }
    }
}

/// Removing adjacent duplicates keeps the index order.
pub proof fn lemma_dedup_segs_sorted(s: Seq<SegModel>)
    requires
        sorted_segs(s),
    ensures
        sorted_segs(dedup_segs(s)),
    decreases s.len(),
{
    if s.len() > 1 {
        assert forall|i: int, j: int| 0 <= i < j < s.drop_last().len() implies model_le(
            #[trigger] s.drop_last()[i],
            #[trigger] s.drop_last()[j],
        ) by {
            assert(model_le(s[i], s[j]));
        }
        lemma_dedup_segs_sorted(s.drop_last());
        if s[s.len() - 1] != s[s.len() - 2] {
            lemma_dedup_segs_contains(s.drop_last());
            let d0 = dedup_segs(s.drop_last());
            let d = d0.push(s.last());
            assert(dedup_segs(s) == d);
            assert forall|i: int, j: int| 0 <= i < j < d.len() implies model_le(
                #[trigger] d[i],
                #[trigger] d[j],
            ) by {
                if j < d.len() - 1 {
                    assert(model_le(d0[i], d0[j]));
                } else {
                    let x = d[i];
                    assert(s.drop_last().contains(x)) by {
                        assert(d0.contains(x)) by {
                            assert(d0[i] == x);
                        }
                    }
                    let u = choose|u: int| 0 <= u < s.drop_last().len() && s.drop_last()[u] == x;
                    assert(model_le(s[u], s[s.len() - 1]));
                }
            }
        }
    }
}

/// What the index entries of a corpus are: in index order, holding exactly
/// the corpus's segments, every one well formed.
pub proof fn lemma_index_entries(c: Seq<u8>)
    requires
        c.len() + 13 < 0x1_0000_0000,
    ensures
        sorted_segs(index_entries(c)),
        forall|x: SegModel| #[trigger] index_entries(c).contains(x) <==> corpus_segments(
            c,
        ).contains(x),
        forall|i: int| 0 <= i < index_entries(c).len() ==> wf_seg(#[trigger] index_entries(c)[i]),
{
    broadcast use vstd::seq_lib::group_to_multiset_ensures;

    let segs = corpus_segments(c);
    let sorted = segs.sort_by(model_order());
    lemma_model_total_ordering();
    segs.lemma_sort_by_ensures(model_order());
    lemma_sorted_segs_bridge(sorted);
    lemma_dedup_segs_sorted(sorted);
    lemma_dedup_segs_contains(sorted);
    assert forall|x: SegModel| #[trigger] sorted.contains(x) <==> segs.contains(x) by {
        assert(segs.to_multiset() =~= sorted.to_multiset());
        assert(segs.contains(x) <==> segs.to_multiset().count(x) > 0);
        assert(sorted.contains(x) <==> sorted.to_multiset().count(x) > 0);
    }
    lemma_corpus_segments_wf(c, 0);
    assert forall|i: int| 0 <= i < index_entries(c).len() implies wf_seg(
        #[trigger] index_entries(c)[i],
    ) by {
        assert(index_entries(c).contains(index_entries(c)[i]));
        let x = index_entries(c)[i];
        assert(segs.contains(x));
        let j = choose|j: int| 0 <= j < segs.len() && segs[j] == x;
        assert(wf_seg(segs[j]));
    }
}

/// The key file that the entries serialize to is sorted: the entry order
/// compares keys first.
pub proof fn lemma_keyfile_sorted(entries: Seq<SegModel>)
    requires
        sorted_segs(entries),
        forall|i: int| 0 <= i < entries.len() ==> (#[trigger] entries[i]).key.len() == 12,
    ensures
        crate::locate::keyfile_sorted(keyfile_of(entries)),
        crate::locate::num_blocks(keyfile_of(entries)) == entries.len(),
{
    lemma_keyfile_structure(entries);
    let k = keyfile_of(entries);
    assert(crate::locate::num_blocks(k) == entries.len());
    assert forall|i: int, j: int|
        0 <= i < j < crate::locate::num_blocks(k) implies crate::bytes::lex_le(
        #[trigger] crate::locate::key_at(k, i),
        #[trigger] crate::locate::key_at(k, j),
    ) by {
        assert(model_le(entries[i], entries[j]));
    }
}

/// Builds the whole index of a corpus: key file bytes and payload file
/// bytes. The result is a function of the corpus bytes alone, so rebuilding
/// from a byte-identical corpus yields byte-identical files.
pub fn build_index(corpus: &Vec<u8>) -> (r: (Vec<u8>, Vec<u8>))
    requires
        corpus@.len() + 13 < 0x1_0000_0000,
    ensures
        r.0@ == keyfile_of(index_entries(corpus@)),
        r.1@ == payload_of(index_entries(corpus@)),
{
    let words = collect_segments(corpus);
    let sorted = sort_segments(words);
    let entries = dedup_segments(sorted);
    write_indices(&entries)
}

} // verus!
