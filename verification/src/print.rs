//! Presentation: partitioning matched lines so that exact prefix matches
//! come first, and highlighting the query inside each line with terminal
//! escape sequences.

use vstd::prelude::*;

use crate::bytes::{find_byte, matches_at_bytes, starts_with_bytes, starts_with_seq};
use crate::search::lines_view;

verus! {

/// Every occurrence of `from` in `s` replaced by `to`, scanning left to
/// right without overlap.
pub open spec fn replace_seq(s: Seq<u8>, from: Seq<u8>, to: Seq<u8>) -> Seq<u8>
    decreases s.len() when from.len() > 0
{
    if s.len() == 0 {
        s
    } else if s.len() >= from.len() && s.take(from.len() as int) == from {
        to + replace_seq(s.skip(from.len() as int), from, to)
    } else {
        seq![s[0]] + replace_seq(s.skip(1), from, to)
    }
}

/// Appends all of `src` to `out`.
pub fn push_all(out: &mut Vec<u8>, src: &Vec<u8>)
    ensures
        final(out)@ == old(out)@ + src@,
{
    let ghost orig = out@;
    let n = src.len();
    let mut i: usize = 0;
    while i < n
        invariant
            i <= n,
            n == src@.len(),
            out@ == orig + src@.take(i as int),
        decreases n - i,
    {
        out.push(src[i]);
        proof {
            assert(orig + src@.take(i + 1) =~= (orig + src@.take(i as int)).push(
                src@[i as int],
            ));
        }
        i = i + 1;
    }
    proof {
        assert(orig + src@.take(n as int) =~= orig + src@);
    }
}

/// Replaces every occurrence of `from` in `s` by `to`, scanning left to
/// right without overlap.
pub fn replace_bytes(s: &Vec<u8>, from: &Vec<u8>, to: &Vec<u8>) -> (r: Vec<u8>)
    requires
        from@.len() > 0,
    ensures
        r@ == replace_seq(s@, from@, to@),
{
    let slen = s.len();
    let flen = from.len();
    let mut out: Vec<u8> = Vec::new();
    let mut i: usize = 0;
    proof {
        assert(s@.skip(0) =~= s@);
        assert(Seq::<u8>::empty() + replace_seq(s@, from@, to@) =~= replace_seq(s@, from@, to@));
    }
    while i < slen
        invariant
            i <= slen,
            slen == s@.len(),
            flen == from@.len(),
            flen > 0,
            replace_seq(s@, from@, to@) == out@ + replace_seq(s@.skip(i as int), from@, to@),
        decreases slen - i,
    {
        let ghost rest = s@.skip(i as int);
        let hit = if flen <= slen - i {
            matches_at_bytes(s.as_slice(), from.as_slice(), i)
        } else {
            false
        };
        proof {
            assert(rest.len() == slen - i);
            if i + flen <= slen {
                assert(rest.take(flen as int) =~= s@.subrange(i as int, i + flen));
            }
        }
        let ghost pre = out@;
        if hit {
            push_all(&mut out, to);
            proof {
                assert(rest.skip(flen as int) =~= s@.skip(i + flen));
                assert(replace_seq(rest, from@, to@) == to@ + replace_seq(
                    s@.skip(i + flen),
                    from@,
                    to@,
                ));
                assert(pre + replace_seq(rest, from@, to@) =~= out@ + replace_seq(
                    s@.skip(i + flen),
                    from@,
                    to@,
                ));
            }
            i = i + flen;
        } else {
            out.push(s[i]);
            proof {
                assert(rest[0] == s@[i as int]);
                assert(rest.skip(1) =~= s@.skip(i + 1));
                if i + flen <= slen {
                    assert(rest.take(flen as int) != from@);
                } else {
                    assert(rest.len() < flen);
                }
                assert(replace_seq(rest, from@, to@) == seq![s@[i as int]] + replace_seq(
                    s@.skip(i + 1),
                    from@,
                    to@,
                ));
                assert(pre + replace_seq(rest, from@, to@) =~= out@ + replace_seq(
                    s@.skip(i + 1),
                    from@,
                    to@,
                ));
            }
            i = i + 1;
        }
    }
    proof {
        assert(s@.skip(slen as int) =~= Seq::<u8>::empty());
        assert(out@ + replace_seq(Seq::<u8>::empty(), from@, to@) =~= out@);
    }
    out
}

/// Starting with the query, as a first-class predicate on lines.
pub open spec fn starts_pred(q: Seq<u8>) -> spec_fn(Seq<u8>) -> bool {
    |l: Seq<u8>| starts_with_seq(l, q)
}

/// Not starting with the query, as a first-class predicate on lines.
pub open spec fn not_starts_pred(q: Seq<u8>) -> spec_fn(Seq<u8>) -> bool {
    |l: Seq<u8>| !starts_with_seq(l, q)
}

/// Partitions the hits into lines that start with the raw query and lines
/// that merely contain it, keeping retrieval order within each part and
/// emitting the prefix matches first.
pub fn reorder(hits: &Vec<Vec<u8>>, input: &Vec<u8>) -> (r: Vec<Vec<u8>>)
    ensures
        lines_view(r@) == lines_view(hits@).filter(starts_pred(input@)) + lines_view(
            hits@,
        ).filter(not_starts_pred(input@)),
        forall|x: Seq<u8>| lines_view(r@).contains(x) ==> lines_view(hits@).contains(x),
{
    let n = hits.len();
    let mut a: Vec<Vec<u8>> = Vec::new();
    let mut b: Vec<Vec<u8>> = Vec::new();
    let mut i: usize = 0;
    proof {
        reveal(Seq::filter);
    }
    while i < n
        invariant
            i <= n,
            n == hits@.len(),
            lines_view(a@) == lines_view(hits@).take(i as int).filter(starts_pred(input@)),
            lines_view(b@) == lines_view(hits@).take(i as int).filter(not_starts_pred(input@)),
            forall|x: Seq<u8>| lines_view(a@).contains(x) ==> lines_view(hits@).contains(x),
            forall|x: Seq<u8>| lines_view(b@).contains(x) ==> lines_view(hits@).contains(x),
        decreases n - i,
    {
        let starts = starts_with_bytes(hits[i].as_slice(), input.as_slice());
        let line = crate::search::copy_bytes(&hits[i]);
        let ghost pre_a = a@;
        let ghost pre_b = b@;
        if starts {
            a.push(line);
        } else {
            b.push(line);
        }
        proof {
            reveal(Seq::filter);
            let t1 = lines_view(hits@).take(i + 1);
            assert(t1.drop_last() =~= lines_view(hits@).take(i as int));
            assert(t1.last() == hits@[i as int]@);
            if starts {
                assert(lines_view(a@) =~= lines_view(pre_a).push(hits@[i as int]@));
            } else {
                assert(lines_view(b@) =~= lines_view(pre_b).push(hits@[i as int]@));
            }
            assert forall|x: Seq<u8>|
                lines_view(a@).contains(x) || lines_view(b@).contains(x)
                implies lines_view(hits@).contains(x) by {
                if x == hits@[i as int]@ {
                    assert(lines_view(hits@)[i as int] == x);
                }
            }
        }
        i = i + 1;
    }
    proof {
        assert(lines_view(hits@).take(n as int) =~= lines_view(hits@));
    }
    let blen = b.len();
    let mut j: usize = 0;
    while j < blen
        invariant
            j <= blen,
            blen == b@.len(),
            lines_view(a@) == lines_view(hits@).filter(starts_pred(input@)) + lines_view(
                b@,
            ).take(j as int),
            forall|x: Seq<u8>| lines_view(a@).contains(x) ==> lines_view(hits@).contains(x),
            forall|x: Seq<u8>| lines_view(b@).contains(x) ==> lines_view(hits@).contains(x),
            lines_view(b@) == lines_view(hits@).filter(not_starts_pred(input@)),
        decreases blen - j,
    {
        let line = crate::search::copy_bytes(&b[j]);
        let ghost pre_a = a@;
        a.push(line);
        proof {
            assert(lines_view(a@) =~= lines_view(pre_a).push(b@[j as int]@));
            assert(lines_view(pre_a).push(b@[j as int]@) =~= lines_view(hits@).filter(
                starts_pred(input@),
            ) + lines_view(b@).take(j + 1));
            assert forall|x: Seq<u8>| lines_view(a@).contains(x) implies lines_view(
                hits@,
            ).contains(x) by {
                if x == b@[j as int]@ {
                    assert(lines_view(b@)[j as int] == x);
                }
            }
        }
        j = j + 1;
    }
    proof {
        assert(lines_view(b@).take(blen as int) =~= lines_view(b@));
    }
    a
}

/// The reset escape sequence, `ESC [0m`.
pub open spec fn esc_reset() -> Seq<u8> {
    seq![0x1bu8, 0x5b, 0x30, 0x6d]
}

/// The bright green escape sequence, `ESC [1;32m`.
pub open spec fn esc_green() -> Seq<u8> {
    seq![0x1bu8, 0x5b, 0x31, 0x3b, 0x33, 0x32, 0x6d]
}

/// The bright cyan escape sequence, `ESC [1;36m`.
pub open spec fn esc_cyan() -> Seq<u8> {
    seq![0x1bu8, 0x5b, 0x31, 0x3b, 0x33, 0x36, 0x6d]
}

/// The strikethrough escape sequence, `ESC [9m`.
pub open spec fn esc_strike() -> Seq<u8> {
    seq![0x1bu8, 0x5b, 0x39, 0x6d]
}

/// The literal two-character sequence backslash-n, which the corpus uses to
/// fold a multi-line record onto one line.
pub open spec fn folded_newline() -> Seq<u8> {
    seq![0x5cu8, 0x6e]
}

/// The strikethrough-open markup of the corpus: `<` `ħ` `>`, the `ħ` in its
/// two UTF-8 bytes.
pub open spec fn strike_open() -> Seq<u8> {
    seq![0x3cu8, 0xc4, 0xa7, 0x3e]
}

/// The strikethrough-close markup of the corpus: `<` `/` `ħ` `>`.
pub open spec fn strike_close() -> Seq<u8> {
    seq![0x3cu8, 0x2f, 0xc4, 0xa7, 0x3e]
}

/// Builds one of the fixed byte strings above.
fn esc_reset_vec() -> (r: Vec<u8>)
    ensures
        r@ == esc_reset(),
{
    let mut v: Vec<u8> = Vec::new();
    v.push(0x1b);
    v.push(0x5b);
    v.push(0x30);
    v.push(0x6d);
    proof {
        assert(v@ =~= esc_reset());
    }
    v
}

fn esc_green_vec() -> (r: Vec<u8>)
    ensures
        r@ == esc_green(),
{
    let mut v: Vec<u8> = Vec::new();
    v.push(0x1b);
    v.push(0x5b);
    v.push(0x31);
    v.push(0x3b);
    v.push(0x33);
    v.push(0x32);
    v.push(0x6d);
    proof {
        assert(v@ =~= esc_green());
    }
    v
}

fn esc_cyan_vec() -> (r: Vec<u8>)
    ensures
        r@ == esc_cyan(),
{
    let mut v: Vec<u8> = Vec::new();
    v.push(0x1b);
    v.push(0x5b);
    v.push(0x31);
    v.push(0x3b);
    v.push(0x33);
    v.push(0x36);
    v.push(0x6d);
    proof {
        assert(v@ =~= esc_cyan());
    }
    v
}

fn esc_strike_vec() -> (r: Vec<u8>)
    ensures
        r@ == esc_strike(),
{
    let mut v: Vec<u8> = Vec::new();
    v.push(0x1b);
    v.push(0x5b);
    v.push(0x39);
    v.push(0x6d);
    proof {
        assert(v@ =~= esc_strike());
    }
    v
}

fn folded_newline_vec() -> (r: Vec<u8>)
    ensures
        r@ == folded_newline(),
{
    let mut v: Vec<u8> = Vec::new();
    v.push(0x5c);
    v.push(0x6e);
    proof {
        assert(v@ =~= folded_newline());
    }
    v
}

fn strike_open_vec() -> (r: Vec<u8>)
    ensures
        r@ == strike_open(),
{
    let mut v: Vec<u8> = Vec::new();
    v.push(0x3c);
    v.push(0xc4);
    v.push(0xa7);
    v.push(0x3e);
    proof {
        assert(v@ =~= strike_open());
    }
    v
}

fn strike_close_vec() -> (r: Vec<u8>)
    ensures
        r@ == strike_close(),
{
    let mut v: Vec<u8> = Vec::new();
    v.push(0x3c);
    v.push(0x2f);
    v.push(0xc4);
    v.push(0xa7);
    v.push(0x3e);
    proof {
        assert(v@ =~= strike_close());
    }
    v
}

/// The query without its tab characters: the form it takes inside the
/// headword column, where the corpus holds the headword before the tab.
pub open spec fn strip_tabs(q: Seq<u8>) -> Seq<u8> {
    replace_seq(q, seq![0x09u8], Seq::empty())
}

/// The highlight that replaces the stripped query inside the headword
/// column, returning to cyan afterwards.
pub open spec fn hl_left_of(q: Seq<u8>) -> Seq<u8> {
    esc_reset() + esc_green() + strip_tabs(q) + esc_reset() + esc_cyan()
}

/// The highlight that replaces the raw query inside the body column.
pub open spec fn hl_right_of(q: Seq<u8>) -> Seq<u8> {
    esc_green() + q + esc_reset()
}

/// Whether a line holds a tab byte at all.
pub open spec fn has_tab(l: Seq<u8>) -> bool {
    exists|j: int| 0 <= j < l.len() && l[j] == 0x09
}

/// Distance from `start` to the next tab byte of `l`.
pub open spec fn tab_dist(l: Seq<u8>, start: int) -> nat
    decreases l.len() - start,
{
    if start < 0 || start >= l.len() {
        0
    } else if l[start] == 0x09 {
        0
    } else {
        1 + tab_dist(l, start + 1)
    }
}

/// Index of the first tab byte of `l`.
pub open spec fn tab_index(l: Seq<u8>) -> int {
    tab_dist(l, 0) as int
}

/// `tab_dist` is the only distance whose bytes before it are not tabs and
/// that stops on a tab.
pub proof fn lemma_tab_dist_unique(l: Seq<u8>, start: int, e: int)
    requires
        0 <= start <= e < l.len(),
        forall|j: int| start <= j < e ==> l[j] != 0x09,
        l[e] == 0x09,
    ensures
        tab_dist(l, start) == e - start,
    decreases e - start,
{
    if start < e {
        lemma_tab_dist_unique(l, start + 1, e);
    }
}

/// One decorated line: the headword column highlighted and recoloured, two
/// spaces, then the body column with folded newlines unfolded, strike markup
/// turned into escapes, and the query highlighted.
pub open spec fn decorate_line(q: Seq<u8>, l: Seq<u8>) -> Seq<u8> {
    let t = tab_index(l);
    let left = l.take(t);
    let right = l.skip(t + 1);
    esc_cyan() + replace_seq(left, strip_tabs(q), hl_left_of(q)) + esc_reset() + seq![
        0x20u8,
        0x20,
    ] + replace_seq(
        replace_seq(
            replace_seq(replace_seq(right, folded_newline(), seq![0x0au8]), strike_open(), esc_strike()),
            strike_close(),
            esc_reset(),
        ),
        q,
        hl_right_of(q),
    )
}

/// The decoration of one line, as a first-class function.
pub open spec fn decorate_mapper(q: Seq<u8>) -> spec_fn(Seq<u8>) -> Seq<u8> {
    |l: Seq<u8>| decorate_line(q, l)
}

/// What decoration produces: the hits reordered so that prefix matches come
/// first, each line decorated.
pub open spec fn decorate_spec(q: Seq<u8>, lines: Seq<Seq<u8>>) -> Seq<Seq<u8>> {
    (lines.filter(starts_pred(q)) + lines.filter(not_starts_pred(q))).map_values(
        decorate_mapper(q),
    )
}

/// Reorders the hits so that lines starting with the query come first, and
/// decorates every line for terminal display: headword highlighted and
/// recoloured, folded newlines unfolded, strike markup converted, the query
/// highlighted in the body. Every line must hold the tab that separates its
/// headword from its body, and the query must not consist of tabs alone.
pub fn decorate(input: &Vec<u8>, hits: Vec<Vec<u8>>) -> (r: Vec<Vec<u8>>)
    requires
        input@.len() > 0,
        strip_tabs(input@).len() > 0,
        forall|i: int| 0 <= i < hits@.len() ==> has_tab(#[trigger] lines_view(hits@)[i]),
    ensures
        lines_view(r@) == decorate_spec(input@, lines_view(hits@)),
{
    let tab = tab_byte_vec();
    let empty: Vec<u8> = Vec::new();
    let stripped = replace_bytes(input, &tab, &empty);
    let reset = esc_reset_vec();
    let green = esc_green_vec();
    let cyan = esc_cyan_vec();
    let strike = esc_strike_vec();
    let folded = folded_newline_vec();
    let sopen = strike_open_vec();
    let sclose = strike_close_vec();
    let mut newline: Vec<u8> = Vec::new();
    newline.push(0x0a);
    let mut spaces: Vec<u8> = Vec::new();
    spaces.push(0x20);
    spaces.push(0x20);

    let mut hl_left: Vec<u8> = Vec::new();
    push_all(&mut hl_left, &reset);
    push_all(&mut hl_left, &green);
    push_all(&mut hl_left, &stripped);
    push_all(&mut hl_left, &reset);
    push_all(&mut hl_left, &cyan);
    proof {
        assert(hl_left@ =~= hl_left_of(input@));
    }
    let mut hl_right: Vec<u8> = Vec::new();
    push_all(&mut hl_right, &green);
    push_all(&mut hl_right, input);
    push_all(&mut hl_right, &reset);
    proof {
        assert(hl_right@ =~= hl_right_of(input@));
    }

    let ordered = reorder(&hits, input);
    proof {
        assert forall|i: int| 0 <= i < ordered@.len() implies has_tab(
            #[trigger] lines_view(ordered@)[i],
        ) by {
            assert(lines_view(ordered@).contains(lines_view(ordered@)[i]));
            let x = lines_view(ordered@)[i];
            assert(lines_view(hits@).contains(x));
            let j = choose|j: int| 0 <= j < lines_view(hits@).len() && lines_view(hits@)[j] == x;
            assert(has_tab(lines_view(hits@)[j]));
        }
    }
    let ghost ovs = lines_view(ordered@);
    let n = ordered.len();
    let mut out: Vec<Vec<u8>> = Vec::new();
    let mut i: usize = 0;
    while i < n
        invariant
            i <= n,
            n == ordered@.len(),
            ovs == lines_view(ordered@),
            input@.len() > 0,
            stripped@ == strip_tabs(input@),
            stripped@.len() > 0,
            hl_left@ == hl_left_of(input@),
            hl_right@ == hl_right_of(input@),
            reset@ == esc_reset(),
            green@ == esc_green(),
            cyan@ == esc_cyan(),
            strike@ == esc_strike(),
            folded@ == folded_newline(),
            sopen@ == strike_open(),
            sclose@ == strike_close(),
            newline@ == seq![0x0au8],
            spaces@ == seq![0x20u8, 0x20],
            forall|k: int| 0 <= k < n ==> has_tab(#[trigger] ovs[k]),
            lines_view(out@) == ovs.take(i as int).map_values(decorate_mapper(input@)),
        decreases n - i,
    {
        let line = &ordered[i];
        let tabi = match find_byte(line.as_slice(), 0x09) {
            Some(t) => t,
            None => {
                proof {
                    assert(has_tab(ovs[i as int]));
                    assert(false);
                }
                0
            },
        };
        proof {
            lemma_tab_dist_unique(line@, 0, tabi as int);
        }
        let llen = line.len();
        let left = vstd::slice::slice_to_vec(vstd::slice::slice_subrange(
            line.as_slice(),
            0,
            tabi,
        ));
        let right = vstd::slice::slice_to_vec(vstd::slice::slice_subrange(
            line.as_slice(),
            tabi + 1,
            llen,
        ));
        proof {
            assert(left@ =~= line@.take(tab_index(line@)));
            assert(right@ =~= line@.skip(tab_index(line@) + 1));
        }
        let mut decorated = esc_cyan_vec();
        let left_rep = replace_bytes(&left, &stripped, &hl_left);
        push_all(&mut decorated, &left_rep);
        push_all(&mut decorated, &reset);
        push_all(&mut decorated, &spaces);
        let r1 = replace_bytes(&right, &folded, &newline);
        let r2 = replace_bytes(&r1, &sopen, &strike);
        let r3 = replace_bytes(&r2, &sclose, &reset);
        let r4 = replace_bytes(&r3, input, &hl_right);
        push_all(&mut decorated, &r4);
        proof {
            assert(decorated@ =~= decorate_line(input@, line@));
        }
        let ghost pre = out@;
        out.push(decorated);
        proof {
            assert(lines_view(out@) =~= lines_view(pre).push(decorate_line(input@, ovs[i as int])));
            assert(ovs.take(i + 1).map_values(decorate_mapper(input@)) =~= ovs.take(
                i as int,
            ).map_values(decorate_mapper(input@)).push(decorate_line(input@, ovs[i as int])));
        }
        i = i + 1;
    }
    proof {
        assert(ovs.take(n as int) =~= ovs);
        assert(ovs.map_values(decorate_mapper(input@)) =~= decorate_spec(
            input@,
            lines_view(hits@),
        ));
    }
    out
}

/// A single tab byte.
fn tab_byte_vec() -> (r: Vec<u8>)
    ensures
        r@ == seq![0x09u8],
{
    let mut v: Vec<u8> = Vec::new();
    v.push(0x09);
    proof {
        assert(v@ =~= seq![0x09u8]);
    }
    v
}

/// The decorated lines joined by newlines, as one stream for the pager.
pub open spec fn join_lines(ls: Seq<Seq<u8>>) -> Seq<u8>
    decreases ls.len(),
{
    if ls.len() == 0 {
        Seq::empty()
    } else if ls.len() == 1 {
        ls[0]
    } else {
        join_lines(ls.drop_last()) + seq![0x0au8] + ls.last()
    }
}

/// The full display pipeline for one result set: reorder, decorate, and join
/// the lines with newlines into the byte stream that is handed to the pager.
pub fn print_to_console(input: &Vec<u8>, hits: Vec<Vec<u8>>) -> (out: Vec<u8>)
    requires
        input@.len() > 0,
        strip_tabs(input@).len() > 0,
        forall|i: int| 0 <= i < hits@.len() ==> has_tab(#[trigger] lines_view(hits@)[i]),
    ensures
        out@ == join_lines(decorate_spec(input@, lines_view(hits@))),
{
    let results = decorate(input, hits);
    let n = results.len();
    let mut out: Vec<u8> = Vec::new();
    let mut i: usize = 0;
    while i < n
        invariant
            i <= n,
            n == results@.len(),
            out@ == join_lines(lines_view(results@).take(i as int)),
        decreases n - i,
    {
        if i > 0 {
            out.push(0x0a);
        }
        push_all(&mut out, &results[i]);
        proof {
            let t1 = lines_view(results@).take(i + 1);
            assert(t1.drop_last() =~= lines_view(results@).take(i as int));
            assert(t1.last() == results@[i as int]@);
            if i == 0 {
                assert(out@ =~= t1[0]);
            } else {
                assert(out@ =~= join_lines(t1.drop_last()) + seq![0x0au8] + t1.last());
            }
        }
        i = i + 1;
    }
    proof {
        assert(lines_view(results@).take(n as int) =~= lines_view(results@));
    }
    out
}

} // verus!
