//! Block-level sorting of classified lines.
//!
//! A block is a contiguous run of `HasIp` lines; `NoIp` lines separate
//! blocks and keep their positions. `sort_blocks` sorts each block on its
//! own; `sort_inline` sorts all IPs of the input as one pool and puts them
//! back into the IP positions in document order; `deduplicate_blocks`
//! removes IPs already seen.

use crate::classify::{
    first_min, lemma_first_min, lines_view, lines_wf, span_nets, spans_text, spans_view, spans_wf,
    ClassifiedLine, LineView, Span, SpanView,
};
use crate::output::IpsOnlyMode;
use crate::pipeline::no_ip_lines;
use crate::parse::{
    ipnet_text, ipnet_to_string, ipnet_writes_back, lemma_stripped_cidr_text,
    lemma_token_network_normalized, token_model, Net, ParsedToken, TokenView,
};
use crate::sort::{default_sort_options, precedes, SortOptions};
use crate::stable::{
    is_sorted, keys_wf, lemma_permutation_map, lemma_sorted_by_key_is_sorted,
    lemma_sorted_by_key_len, lemma_sorted_by_key_permutes, map_payload, sorted_by_key, stable_sort,
};
use crate::sort::{before, lemma_before_strict_total_order};
use vstd::prelude::*;

pub mod aggregate;

verus! {

/// The key a line sorts by: its sort key (a `NoIp` line, which never sorts,
/// has a fixed placeholder).
pub open spec fn line_key(l: LineView) -> Net {
    match l {
        LineView::HasIp { sort_key, .. } => sort_key,
        LineView::NoIp(_) => Net { is_v6: false, addr: 0, prefix_len: 0 },
    }
}

/// The lines of `buf`, each keyed by its sort key.
pub open spec fn keyed_lines(buf: Seq<LineView>) -> Seq<(Net, LineView)> {
    buf.map_values(|l: LineView| (line_key(l), l))
}

/// The lines of `buf` stably sorted by their sort keys.
pub open spec fn sort_buffer(buf: Seq<LineView>, opts: SortOptions) -> Seq<LineView> {
    sorted_by_key(keyed_lines(buf), opts).map_values(|p: (Net, LineView)| p.1)
}

/// After the lines `lines`: the output so far, and the buffer of `HasIp`
/// lines of the current block.
pub open spec fn blocks_state(lines: Seq<LineView>, opts: SortOptions) -> (
    Seq<LineView>,
    Seq<LineView>,
)
    decreases lines.len(),
{
    if lines.len() == 0 {
        (seq![], seq![])
    } else {
        let (out, buf) = blocks_state(lines.drop_last(), opts);
        let l = lines.last();
        if l is HasIp {
            (out, buf.push(l))
        } else {
            (out + sort_buffer(buf, opts) + seq![l], seq![])
        }
    }
}

/// The lines with each block of `HasIp` lines stably sorted by sort key and
/// every `NoIp` line kept in place.
pub open spec fn sort_blocks_model(lines: Seq<LineView>, opts: SortOptions) -> Seq<LineView> {
    let (out, buf) = blocks_state(lines, opts);
    out + sort_buffer(buf, opts)
}

/// Every line of `lines` is a `HasIp` line.
pub open spec fn all_has_ip(lines: Seq<LineView>) -> bool {
    forall|i: int| 0 <= i < lines.len() ==> (#[trigger] lines[i]) is HasIp
}

/// No line of `lines` has a sort key that sorts strictly before the key of
/// an earlier line.
pub open spec fn keys_sorted(lines: Seq<LineView>, opts: SortOptions) -> bool {
    forall|i: int, j: int|
        0 <= i < j < lines.len() ==> !before(line_key(#[trigger] lines[j]), line_key(#[trigger] lines[i]), opts)
}

/// Sorting a buffer of `HasIp` lines gives a permutation of it, all `HasIp`
/// lines, sorted by key.
pub proof fn lemma_sort_buffer(buf: Seq<LineView>, opts: SortOptions)
    requires
        all_has_ip(buf),
    ensures
        sort_buffer(buf, opts).len() == buf.len(),
        all_has_ip(sort_buffer(buf, opts)),
        keys_sorted(sort_buffer(buf, opts), opts),
        sort_buffer(buf, opts).to_multiset() == buf.to_multiset(),
{
    broadcast use vstd::seq_lib::group_to_multiset_ensures;

    let k = keyed_lines(buf);
    let sk = sorted_by_key(k, opts);
    let r = sort_buffer(buf, opts);
    lemma_sorted_by_key_len(k, opts);
    lemma_sorted_by_key_is_sorted(k, opts);
    lemma_sorted_by_key_permutes(k, opts);
    assert forall|i: int| 0 <= i < sk.len() implies (#[trigger] sk[i]).0 == line_key(sk[i].1)
        && sk[i].1 is HasIp by {
        assert(sk.contains(sk[i]));
        assert(sk.to_multiset().count(sk[i]) > 0);
        assert(k.contains(sk[i]));
        let j = choose|j: int| 0 <= j < k.len() && k[j] == sk[i];
        assert(buf[j] is HasIp);
    }
    assert forall|i: int| 0 <= i < r.len() implies (#[trigger] r[i]) is HasIp by {
        assert(r[i] == sk[i].1);
    }
    assert forall|i: int, j: int| 0 <= i < j < r.len() implies !before(
        line_key(#[trigger] r[j]),
        line_key(#[trigger] r[i]),
        opts,
    ) by {
        assert(r[i] == sk[i].1 && r[j] == sk[j].1);
        assert(!before(sk[j].0, sk[i].0, opts));
    }
    lemma_permutation_map(sk, k, |p: (Net, LineView)| p.1);
    assert(k.map_values(|p: (Net, LineView)| p.1) =~= buf);
}

/// What the state after a prefix of the lines holds: the output covers the
/// first lines, keeps their `NoIp` lines in place and their `HasIp`
/// positions `HasIp`, is sorted between neighbouring `HasIp` lines, ends
/// with a `NoIp` line if non-empty, and permutes those lines; the buffer is
/// the rest, all `HasIp`.
pub open spec fn blocks_state_inv(p: Seq<LineView>, out: Seq<LineView>, buf: Seq<LineView>, opts: SortOptions) -> bool {
    &&& out.len() + buf.len() == p.len()
    &&& buf == p.skip(out.len() as int)
    &&& all_has_ip(buf)
    &&& forall|i: int| 0 <= i < out.len() ==> (#[trigger] p[i] is NoIp ==> out[i] == p[i]) && (p[i] is HasIp ==> out[i] is HasIp)
    &&& forall|i: int| 0 <= i < out.len() - 1 && (#[trigger] out[i]) is HasIp && out[i + 1] is HasIp ==> !before(line_key(out[i + 1]), line_key(out[i]), opts)
    &&& (out.len() > 0 ==> out.last() is NoIp)
    &&& out.to_multiset() == p.take(out.len() as int).to_multiset()
}

proof fn lemma_blocks_state_inv(p: Seq<LineView>, opts: SortOptions)
    ensures
        blocks_state_inv(p, blocks_state(p, opts).0, blocks_state(p, opts).1, opts),
    decreases p.len(),
{
    broadcast use vstd::seq_lib::group_to_multiset_ensures;

    if p.len() == 0 {
        assert(p.skip(0) =~= Seq::<LineView>::empty());
        assert(p.take(0) =~= Seq::<LineView>::empty());
    } else {
        let d = p.drop_last();
        lemma_blocks_state_inv(d, opts);
        let (out, buf) = blocks_state(d, opts);
        let l = p.last();
        assert forall|i: int| 0 <= i < out.len() implies (#[trigger] p[i] is NoIp ==> out[i] == p[i]) && (p[i] is HasIp ==> out[i] is HasIp) by {
            assert(p[i] == d[i]);
        }
        if l is HasIp {
            assert(blocks_state(p, opts) == (out, buf.push(l)));
            assert(buf.push(l) =~= p.skip(out.len() as int));
            assert forall|i: int| 0 <= i < buf.push(l).len() implies (#[trigger] buf.push(l)[i]) is HasIp by {
                if i < buf.len() {
                    assert(buf.push(l)[i] == buf[i]);
                }
            }
            assert(p.take(out.len() as int) =~= d.take(out.len() as int));
        } else {
            lemma_sort_buffer(buf, opts);
            let sb = sort_buffer(buf, opts);
            let o2 = out + sb + seq![l];
            assert(o2.len() == p.len());
            assert(p.skip(o2.len() as int) =~= Seq::<LineView>::empty());
            assert forall|i: int| 0 <= i < o2.len() implies (#[trigger] p[i] is NoIp ==> o2[i] == p[i]) && (p[i] is HasIp ==> o2[i] is HasIp) by {
                if i < out.len() {
                    assert(p[i] == d[i]);
                    assert(o2[i] == out[i]);
                } else if i < out.len() + sb.len() {
                    assert(o2[i] == sb[i - out.len()]);
                    assert(p[i] == buf[i - out.len()]);
                } else {
                    assert(o2[i] == l);
                }
            }
            assert forall|i: int| 0 <= i < o2.len() - 1 && (#[trigger] o2[i]) is HasIp && o2[i + 1] is HasIp implies !before(line_key(o2[i + 1]), line_key(o2[i]), opts) by {
                if i < out.len() - 1 {
                    assert(o2[i] == out[i] && o2[i + 1] == out[i + 1]);
                } else if i == out.len() - 1 {
                    assert(o2[i] == out.last());
                } else {
                    assert(o2[i] == sb[i - out.len()]);
                    assert(o2[i + 1] == sb[i + 1 - out.len()]);
                }
            }
            assert(p.take(o2.len() as int) =~= p);
            assert(d.take(out.len() as int) + buf =~= d);
            vstd::seq_lib::lemma_multiset_commutative(out, sb);
            vstd::seq_lib::lemma_multiset_commutative(d.take(out.len() as int), buf);
            vstd::seq_lib::lemma_multiset_commutative(out + sb, seq![l]);
            vstd::seq_lib::lemma_multiset_commutative(d, seq![l]);
            assert(d + seq![l] =~= p);
            assert(p.take(out.len() as int) =~= d.take(out.len() as int));
        }
    }
}

/// Block sorting keeps the document's shape and sorts each block: as many
/// lines come out as went in, every `NoIp` line stays where it was, every
/// `HasIp` position holds a `HasIp` line, neighbouring `HasIp` lines are in
/// order by sort key, and the lines are a permutation of the input.
pub proof fn lemma_sort_blocks_laws(lines: Seq<LineView>, opts: SortOptions)
    ensures
        sort_blocks_model(lines, opts).len() == lines.len(),
        forall|i: int| 0 <= i < lines.len() ==> (#[trigger] lines[i] is NoIp ==> sort_blocks_model(lines, opts)[i] == lines[i]) && (lines[i] is HasIp ==> sort_blocks_model(lines, opts)[i] is HasIp),
        forall|i: int|
            0 <= i < lines.len() - 1 && (#[trigger] sort_blocks_model(lines, opts)[i]) is HasIp
                && sort_blocks_model(lines, opts)[i + 1] is HasIp ==> !before(
                line_key(sort_blocks_model(lines, opts)[i + 1]),
                line_key(sort_blocks_model(lines, opts)[i]),
                opts,
            ),
        sort_blocks_model(lines, opts).to_multiset() == lines.to_multiset(),
{
    broadcast use vstd::seq_lib::group_to_multiset_ensures;

    lemma_blocks_state_inv(lines, opts);
    let (out, buf) = blocks_state(lines, opts);
    lemma_sort_buffer(buf, opts);
    let sb = sort_buffer(buf, opts);
    let r = out + sb;
    assert forall|i: int| 0 <= i < lines.len() implies (#[trigger] lines[i] is NoIp ==> r[i] == lines[i]) && (lines[i] is HasIp ==> r[i] is HasIp) by {
        if i < out.len() {
            assert(r[i] == out[i]);
        } else {
            assert(r[i] == sb[i - out.len()]);
            assert(lines[i] == buf[i - out.len()]);
        }
    }
    assert forall|i: int| 0 <= i < lines.len() - 1 && (#[trigger] r[i]) is HasIp && r[i + 1] is HasIp implies !before(line_key(r[i + 1]), line_key(r[i]), opts) by {
        if i < out.len() - 1 {
            assert(r[i] == out[i] && r[i + 1] == out[i + 1]);
        } else if i == out.len() - 1 {
            assert(r[i] == out.last());
        } else {
            assert(r[i] == sb[i - out.len()]);
            assert(r[i + 1] == sb[i + 1 - out.len()]);
        }
    }
    vstd::seq_lib::lemma_multiset_commutative(out, sb);
    vstd::seq_lib::lemma_multiset_commutative(lines.take(out.len() as int), buf);
    assert(lines.take(out.len() as int) + buf =~= lines);
}

/// Sorting a buffer keeps its lines well formed.
proof fn lemma_sort_buffer_wf(buf: Seq<LineView>, opts: SortOptions)
    requires
        lines_wf(buf),
    ensures
        lines_wf(sort_buffer(buf, opts)),
{
    broadcast use vstd::seq_lib::group_to_multiset_ensures;

    let k = keyed_lines(buf);
    let sk = sorted_by_key(k, opts);
    lemma_sorted_by_key_len(k, opts);
    lemma_sorted_by_key_permutes(k, opts);
    let r = sort_buffer(buf, opts);
    assert forall|i: int| 0 <= i < r.len() implies (#[trigger] r[i]).wf() by {
        assert(r[i] == sk[i].1);
        assert(sk.contains(sk[i]));
        assert(sk.to_multiset().count(sk[i]) > 0);
        assert(k.contains(sk[i]));
        let j = choose|j: int| 0 <= j < k.len() && k[j] == sk[i];
        assert(buf[j].wf());
    }
}

/// Neighbouring `HasIp` lines of `lines` are in order by sort key.
pub open spec fn blocks_sorted(lines: Seq<LineView>, opts: SortOptions) -> bool {
    forall|i: int|
        0 <= i < lines.len() - 1 && (#[trigger] lines[i]) is HasIp && lines[i + 1] is HasIp ==> !before(
            line_key(lines[i + 1]),
            line_key(lines[i]),
            opts,
        )
}

/// In a run of `HasIp` lines whose neighbours are in order, every line is
/// in order with every later one.
proof fn lemma_adjacent_sorted_pairwise(buf: Seq<LineView>, opts: SortOptions, i: int, j: int)
    requires
        all_has_ip(buf),
        blocks_sorted(buf, opts),
        0 <= i < j < buf.len(),
    ensures
        !before(line_key(buf[j]), line_key(buf[i]), opts),
    decreases j - i,
{
    if j > i + 1 {
        lemma_adjacent_sorted_pairwise(buf, opts, i, j - 1);
        assert(buf[j - 1] is HasIp && buf[j] is HasIp);
        let a = line_key(buf[i]);
        let b = line_key(buf[j - 1]);
        let c = line_key(buf[j]);
        crate::sort::lemma_before_strict_total_order(c, a, b, opts);
        crate::sort::lemma_before_strict_total_order(a, b, c, opts);
        crate::sort::lemma_before_strict_total_order(b, a, c, opts);
    } else {
        assert(buf[i] is HasIp && buf[i + 1] is HasIp);
    }
}

/// Sorting a run of `HasIp` lines that is already in order changes nothing.
proof fn lemma_sort_buffer_of_sorted(buf: Seq<LineView>, opts: SortOptions)
    requires
        all_has_ip(buf),
        blocks_sorted(buf, opts),
    ensures
        sort_buffer(buf, opts) == buf,
{
    let k = keyed_lines(buf);
    assert forall|i: int, j: int| 0 <= i < j < k.len() implies !before(
        #[trigger] k[j].0,
        #[trigger] k[i].0,
        opts,
    ) by {
        lemma_adjacent_sorted_pairwise(buf, opts, i, j);
    }
    crate::stable::lemma_sorted_by_key_of_sorted(k, opts);
    assert(k.map_values(|p: (Net, LineView)| p.1) =~= buf);
}

/// On lines already in order within their blocks, the output after each
/// prefix is that prefix's first lines unchanged.
proof fn lemma_blocks_state_of_sorted(p: Seq<LineView>, opts: SortOptions)
    requires
        blocks_sorted(p, opts),
    ensures
        blocks_state(p, opts).0 == p.take(blocks_state(p, opts).0.len() as int),
    decreases p.len(),
{
    if p.len() > 0 {
        let d = p.drop_last();
        assert forall|i: int| 0 <= i < d.len() - 1 && (#[trigger] d[i]) is HasIp && d[i + 1] is HasIp implies !before(
            line_key(d[i + 1]),
            line_key(d[i]),
            opts,
        ) by {
            assert(d[i] == p[i] && d[i + 1] == p[i + 1]);
        }
        lemma_blocks_state_of_sorted(d, opts);
        lemma_blocks_state_inv(d, opts);
        let (out, buf) = blocks_state(d, opts);
        let l = p.last();
        if l is HasIp {
            assert(p.take(out.len() as int) =~= d.take(out.len() as int));
        } else {
            assert forall|i: int| 0 <= i < buf.len() - 1 && (#[trigger] buf[i]) is HasIp && buf[i + 1] is HasIp implies !before(
                line_key(buf[i + 1]),
                line_key(buf[i]),
                opts,
            ) by {
                assert(buf[i] == p[out.len() + i] && buf[i + 1] == p[out.len() + i + 1]);
            }
            lemma_sort_buffer_of_sorted(buf, opts);
            assert(out + buf + seq![l] =~= p) by {
                assert(out =~= d.take(out.len() as int));
                assert(buf =~= d.skip(out.len() as int));
            }
            assert(p.take(p.len() as int) =~= p);
        }
    }
}

/// Block sorting leaves lines that are already in order within their blocks
/// unchanged.
pub proof fn lemma_sort_blocks_fixes_sorted(lines: Seq<LineView>, opts: SortOptions)
    requires
        blocks_sorted(lines, opts),
    ensures
        sort_blocks_model(lines, opts) == lines,
{
    lemma_blocks_state_of_sorted(lines, opts);
    lemma_blocks_state_inv(lines, opts);
    let (out, buf) = blocks_state(lines, opts);
    assert forall|i: int| 0 <= i < buf.len() - 1 && (#[trigger] buf[i]) is HasIp && buf[i + 1] is HasIp implies !before(
        line_key(buf[i + 1]),
        line_key(buf[i]),
        opts,
    ) by {
        assert(buf[i] == lines[out.len() + i] && buf[i + 1] == lines[out.len() + i + 1]);
    }
    lemma_sort_buffer_of_sorted(buf, opts);
    assert(out + buf =~= lines) by {
        assert(out =~= lines.take(out.len() as int));
        assert(buf =~= lines.skip(out.len() as int));
    }
}

/// Block sorting is idempotent: sorting its output again changes nothing.
pub proof fn lemma_sort_blocks_idempotent(lines: Seq<LineView>, opts: SortOptions)
    ensures
        sort_blocks_model(sort_blocks_model(lines, opts), opts) == sort_blocks_model(lines, opts),
{
    lemma_sort_blocks_laws(lines, opts);
    lemma_sort_blocks_fixes_sorted(sort_blocks_model(lines, opts), opts);
}

/// `[a, b)` is a block of `lines`: a maximal run of `HasIp` lines.
pub open spec fn is_block(lines: Seq<LineView>, a: int, b: int) -> bool {
    &&& 0 <= a < b <= lines.len()
    &&& forall|i: int| a <= i < b ==> (#[trigger] lines[i]) is HasIp
    &&& (a == 0 || lines[a - 1] is NoIp)
    &&& (b == lines.len() || lines[b] is NoIp)
}

/// Every block of `p` that ends by `n` holds, in `out`, a permutation of
/// its lines.
pub open spec fn blocks_permuted_upto(p: Seq<LineView>, out: Seq<LineView>, n: int) -> bool {
    forall|a: int, b: int|
        #[trigger] is_block(p, a, b) && b <= n ==> out.subrange(a, b).to_multiset() == p.subrange(
            a,
            b,
        ).to_multiset()
}

proof fn lemma_blocks_state_blocks(p: Seq<LineView>, opts: SortOptions)
    ensures
        blocks_permuted_upto(p, blocks_state(p, opts).0, blocks_state(p, opts).0.len() as int),
    decreases p.len(),
{
    if p.len() > 0 {
        let d = p.drop_last();
        lemma_blocks_state_blocks(d, opts);
        lemma_blocks_state_inv(d, opts);
        let (out, buf) = blocks_state(d, opts);
        let l = p.last();
        let n = out.len() as int;
        assert forall|i: int| 0 <= i < d.len() implies #[trigger] p[i] == d[i] by {}
        if l is HasIp {
            assert forall|a: int, b: int| #[trigger] is_block(p, a, b) && b <= n implies out.subrange(
                a,
                b,
            ).to_multiset() == p.subrange(a, b).to_multiset() by {
                if b == d.len() {
                    assert(p[b] == l);
                }
                assert(is_block(d, a, b));
                assert(p.subrange(a, b) =~= d.subrange(a, b));
            }
        } else {
            lemma_sort_buffer(buf, opts);
            let sb = sort_buffer(buf, opts);
            let o2 = out + sb + seq![l];
            assert(blocks_state(p, opts) == (o2, Seq::<LineView>::empty()));
            assert forall|a: int, b: int| #[trigger] is_block(p, a, b) && b <= o2.len() implies o2.subrange(
                a,
                b,
            ).to_multiset() == p.subrange(a, b).to_multiset() by {
                assert(p[d.len() as int] == l);
                if b <= n {
                    if b == d.len() {
                        assert(buf.len() == 0);
                    }
                    assert(is_block(d, a, b));
                    assert(o2.subrange(a, b) =~= out.subrange(a, b));
                    assert(p.subrange(a, b) =~= d.subrange(a, b));
                } else {
                    // the block is the buffer
                    if a < n {
                        assert(out.last() is NoIp);
                        assert(out[n - 1] == p[n - 1]);
                        assert(p[n - 1] is HasIp);
                    }
                    if a > n {
                        assert(p[a - 1] == d[a - 1]);
                        assert(d[a - 1] == buf[a - 1 - n]);
                    }
                    assert(a == n);
                    if b < d.len() {
                        assert(p[b] == d[b]);
                        assert(d[b] == buf[b - n]);
                    }
                    assert(b == d.len());
                    assert(o2.subrange(a, b) =~= sb);
                    assert(p.subrange(a, b) =~= buf);
                }
            }
        }
    }
}

/// Block sorting permutes each block within itself: every maximal run of
/// `HasIp` lines of the output holds the same lines as that run of the
/// input, in some order.
pub proof fn lemma_sort_blocks_permutes_blocks(lines: Seq<LineView>, opts: SortOptions, a: int, b: int)
    requires
        is_block(lines, a, b),
    ensures
        sort_blocks_model(lines, opts).subrange(a, b).to_multiset() == lines.subrange(a, b).to_multiset(),
{
    lemma_blocks_state_blocks(lines, opts);
    lemma_blocks_state_inv(lines, opts);
    let (out, buf) = blocks_state(lines, opts);
    lemma_sort_buffer(buf, opts);
    let sb = sort_buffer(buf, opts);
    let r = out + sb;
    let n = out.len() as int;
    assert forall|i: int| 0 <= i < lines.len() implies #[trigger] lines[i] == lines[i] by {}
    if b <= n {
        assert(r.subrange(a, b) =~= out.subrange(a, b));
    } else {
        if a < n {
            assert(out.last() is NoIp);
            assert(out[n - 1] == lines[n - 1]);
        }
        if a > n {
            assert(lines[a - 1] == buf[a - 1 - n]);
        }
        assert(a == n);
        if b < lines.len() {
            assert(lines[b] == buf[b - n]);
        }
        assert(b == lines.len());
        assert(r.subrange(a, b) =~= sb);
        assert(lines.subrange(a, b) =~= buf);
    }
}

/// The sort key of a line.
fn key_of(line: &ClassifiedLine) -> (r: Net)
    requires
        line@.wf(),
    ensures
        r == line_key(line@),
        r.wf(),
{
    match line {
        ClassifiedLine::HasIp { sort_key, .. } => *sort_key,
        ClassifiedLine::NoIp(_) => Net { is_v6: false, addr: 0, prefix_len: 0 },
    }
}

/// Sorts the buffered lines by sort key and moves them to the output.
pub(crate) fn flush_buffer(buffer: &mut Vec<ClassifiedLine>, output: &mut Vec<ClassifiedLine>, opts: &SortOptions)
    requires
        lines_wf(lines_view(old(buffer)@)),
    ensures
        final(buffer)@.len() == 0,
        lines_view(final(output)@) == lines_view(old(output)@) + sort_buffer(
            lines_view(old(buffer)@),
            *opts,
        ),
        lines_wf(lines_view(old(output)@)) ==> lines_wf(lines_view(final(output)@)),
{
    let ghost bv = lines_view(buffer@);
    let mut taken: Vec<ClassifiedLine> = Vec::new();
    std::mem::swap(buffer, &mut taken);
    let mut keyed: Vec<(Net, ClassifiedLine)> = Vec::new();
    for line in it: taken
        invariant
            bv == lines_view(it.seq()),
            lines_wf(bv),
            map_payload(keyed@, |l: ClassifiedLine| l@) == keyed_lines(bv.take(it.index())),
            keys_wf(keyed@),
    {
        proof {
            assert(bv[it.index()] == line@);
        }
        let k = key_of(&line);
        let ghost before = keyed@;
        keyed.push((k, line));
        proof {
            assert(bv.take(it.index() + 1) =~= bv.take(it.index()).push(line@));
            assert(map_payload(keyed@, |l: ClassifiedLine| l@) =~= map_payload(
                before,
                |l: ClassifiedLine| l@,
            ).push((k, line@)));
        }
    }
    proof {
        assert(bv.take(bv.len() as int) =~= bv);
    }
    let ghost keyed_before = keyed@;
    let sorted = stable_sort(keyed, opts);
    proof {
        crate::stable::lemma_sorted_by_key_map(keyed_before, |l: ClassifiedLine| l@, *opts);
    }
    let ghost sv = sorted_by_key(keyed_lines(bv), *opts);
    let ghost out0 = lines_view(output@);
    for p in it: sorted
        invariant
            map_payload(it.seq(), |l: ClassifiedLine| l@) == sv,
            lines_view(output@) == out0 + sv.take(it.index()).map_values(|p: (Net, LineView)| p.1),
    {
        let ghost before = lines_view(output@);
        proof {
            assert(sv[it.index()] == (p.0, p.1@));
        }
        output.push(p.1);
        proof {
            assert(lines_view(output@) =~= before.push(p.1@));
            assert(sv.take(it.index() + 1).map_values(|p: (Net, LineView)| p.1) =~= sv.take(
                it.index(),
            ).map_values(|p: (Net, LineView)| p.1).push(p.1@));
        }
    }
    proof {
        assert(sv.take(sv.len() as int) =~= sv);
        lemma_sort_buffer_wf(bv, *opts);
        let o1 = lines_view(output@);
        let sb = sort_buffer(bv, *opts);
        if lines_wf(out0) {
            assert forall|i: int| 0 <= i < o1.len() implies (#[trigger] o1[i]).wf() by {
                if i < out0.len() {
                    assert(o1[i] == out0[i]);
                } else {
                    assert(o1[i] == sb[i - out0.len()]);
                }
            }
        }
    }
}


/// Sorts the `HasIp` lines within each block by sort key (stably), keeping
/// the `NoIp` lines as block separators in their positions.
pub fn sort_blocks(lines: Vec<ClassifiedLine>, opts: &SortOptions) -> (r: Vec<ClassifiedLine>)
    requires
        lines_wf(lines_view(lines@)),
    ensures
        lines_view(r@) == sort_blocks_model(lines_view(lines@), *opts),
        lines_wf(lines_view(r@)),
{
    let ghost lv = lines_view(lines@);
    let mut output: Vec<ClassifiedLine> = Vec::new();
    let mut buffer: Vec<ClassifiedLine> = Vec::new();
    for line in it: lines
        invariant
            lv == lines_view(it.seq()),
            lines_wf(lv),
            lines_wf(lines_view(buffer@)),
            lines_wf(lines_view(output@)),
            (lines_view(output@), lines_view(buffer@)) == blocks_state(lv.take(it.index()), *opts),
    {
        proof {
            assert(lv[it.index()] == line@);
            assert(lv.take(it.index() + 1).drop_last() =~= lv.take(it.index()));
            assert(lv.take(it.index() + 1).last() == line@);
        }
        let ghost bv = lines_view(buffer@);
        match line {
            ClassifiedLine::HasIp { .. } => {
                buffer.push(line);
                proof {
                    assert(lines_view(buffer@) =~= bv.push(line@));
                    let nb = lines_view(buffer@);
                    assert forall|i: int| 0 <= i < nb.len() implies (#[trigger] nb[i]).wf() by {
                        if i < bv.len() {
                            assert(nb[i] == bv[i]);
                        }
                    }
                }
            },
            ClassifiedLine::NoIp(_) => {
                flush_buffer(&mut buffer, &mut output, opts);
                let ghost ov = lines_view(output@);
                output.push(line);
                proof {
                    assert(lines_view(output@) =~= ov.push(line@));
                    assert(lines_view(buffer@) =~= Seq::<LineView>::empty());
                    let nv = lines_view(output@);
                    assert forall|i: int| 0 <= i < nv.len() implies (#[trigger] nv[i]).wf() by {
                        if i < ov.len() {
                            assert(nv[i] == ov[i]);
                        } else {
                            assert(lv[it.index()].wf());
                        }
                    }
                }
            },
        }
    }
    proof {
        assert(lv.take(lv.len() as int) =~= lv);
    }
    flush_buffer(&mut buffer, &mut output, opts);
    output
}


/// `spans` with every `Ip` span whose network is in `seen`, or was kept
/// earlier in `spans`, removed; and `seen` extended by the networks kept.
pub open spec fn keep_unseen(spans: Seq<SpanView>, seen: Seq<Net>) -> (Seq<SpanView>, Seq<Net>)
    decreases spans.len(),
{
    if spans.len() == 0 {
        (seq![], seen)
    } else {
        let (kept, now_seen) = keep_unseen(spans.drop_last(), seen);
        let s = spans.last();
        match s.net() {
            Some(n) => if now_seen.contains(n) {
                (kept, now_seen)
            } else {
                (kept.push(s), now_seen.push(n))
            },
            None => if s is NonIp {
                (kept.push(s), now_seen)
            } else {
                (kept, now_seen)
            },
        }
    }
}

/// The first network of `ips` that is in `seen`.
pub open spec fn first_seen(ips: Seq<Net>, seen: Seq<Net>) -> Option<Net>
    decreases ips.len(),
{
    if ips.len() == 0 {
        None
    } else if seen.contains(ips[0]) {
        Some(ips[0])
    } else {
        first_seen(ips.drop_first(), seen)
    }
}

/// Deduplication applied to one more line, given the output so far and the
/// networks seen so far; `Err` with the line's text and the duplicate
/// network where a multi-IP line holds a seen network outside ips-only mode.
pub open spec fn dedup_step(
    out: Seq<LineView>,
    seen: Seq<Net>,
    line: LineView,
    mode: IpsOnlyMode,
) -> Result<(Seq<LineView>, Seq<Net>), (Seq<char>, Net)> {
    match line {
        LineView::NoIp(_) => Ok((out.push(line), seen)),
        LineView::HasIp { spans, warnings, .. } => {
            let d = keep_unseen(spans, seq![]).0;
            let ips = span_nets(d);
            if ips.len() == 0 {
                Ok((out, seen))
            } else if mode != IpsOnlyMode::Off {
                let (ns, seen2) = keep_unseen(d, seen);
                let ns_ips = span_nets(ns);
                if ns_ips.len() > 0 {
                    Ok(
                        (
                            out.push(
                                LineView::HasIp {
                                    spans: ns,
                                    sort_key: first_min(ns_ips, default_sort_options()),
                                    warnings,
                                },
                            ),
                            seen2,
                        ),
                    )
                } else {
                    Ok((out, seen2))
                }
            } else if ips.len() > 1 {
                match first_seen(ips, seen) {
                    Some(n) => Err((spans_text(d), n)),
                    None => Ok(
                        (
                            out.push(
                                LineView::HasIp {
                                    spans: d,
                                    sort_key: first_min(ips, default_sort_options()),
                                    warnings,
                                },
                            ),
                            seen + ips,
                        ),
                    ),
                }
            } else if seen.contains(ips[0]) {
                Ok((out, seen))
            } else {
                Ok(
                    (
                        out.push(
                            LineView::HasIp {
                                spans: d,
                                sort_key: first_min(ips, default_sort_options()),
                                warnings,
                            },
                        ),
                        seen.push(ips[0]),
                    ),
                )
            }
        },
    }
}

/// Deduplication of `lines` in order: the output and the seen networks, or
/// the first error.
pub open spec fn dedup_state(lines: Seq<LineView>, mode: IpsOnlyMode) -> Result<
    (Seq<LineView>, Seq<Net>),
    (Seq<char>, Net),
>
    decreases lines.len(),
{
    if lines.len() == 0 {
        Ok((seq![], seq![]))
    } else {
        match dedup_state(lines.drop_last(), mode) {
            Err(e) => Err(e),
            Ok((out, seen)) => dedup_step(out, seen, lines.last(), mode),
        }
    }
}

/// Whether `n` occurs in `v`.
fn contains_net(v: &Vec<Net>, n: Net) -> (r: bool)
    ensures
        r == v@.contains(n),
{
    let mut i: usize = 0;
    while i < v.len()
        invariant
            i <= v@.len(),
            forall|k: int| 0 <= k < i ==> v@[k] != n,
        decreases v@.len() - i,
    {
        if v[i] == n {
            return true;
        }
        i = i + 1;
    }
    false
}

/// The networks of the `Ip` spans of `spans`, in order.
pub(crate) fn nets_of(spans: &Vec<Span>) -> (r: Vec<Net>)
    requires
        spans_wf(spans_view(spans@)),
    ensures
        r@ == span_nets(spans_view(spans@)),
        forall|i: int| 0 <= i < r@.len() ==> (#[trigger] r@[i]).wf(),
{
    let ghost sv = spans_view(spans@);
    let mut r: Vec<Net> = Vec::new();
    let mut i: usize = 0;
    while i < spans.len()
        invariant
            i <= spans@.len() == sv.len(),
            sv == spans_view(spans@),
            spans_wf(sv),
            r@ == span_nets(sv.take(i as int)),
            forall|k: int| 0 <= k < r@.len() ==> (#[trigger] r@[k]).wf(),
        decreases spans@.len() - i,
    {
        proof {
            assert(sv.take(i + 1).drop_last() =~= sv.take(i as int));
            assert(sv.take(i + 1).last() == sv[i as int]);
            assert(sv[i as int].wf());
        }
        match &spans[i] {
            Span::Ip(t) => match t.network() {
                Some(n) => r.push(n),
                None => {},
            },
            Span::NonIp(_) => {},
        }
        i = i + 1;
    }
    proof {
        assert(sv.take(sv.len() as int) =~= sv);
    }
    r
}

/// The first lowest network of a non-empty `nets` under `opts`.
pub fn min_net(nets: &Vec<Net>, opts: &SortOptions) -> (r: Net)
    requires
        nets@.len() > 0,
        forall|i: int| 0 <= i < nets@.len() ==> (#[trigger] nets@[i]).wf(),
    ensures
        r == first_min(nets@, *opts),
        r.wf(),
{
    let mut m = nets[0];
    let mut i: usize = 1;
    assert(nets@.take(1) =~= seq![nets@[0]]);
    while i < nets.len()
        invariant
            1 <= i <= nets@.len(),
            forall|k: int| 0 <= k < nets@.len() ==> (#[trigger] nets@[k]).wf(),
            m == first_min(nets@.take(i as int), *opts),
            m.wf(),
        decreases nets@.len() - i,
    {
        proof {
            assert(nets@.take(i + 1).drop_last() =~= nets@.take(i as int));
            assert(nets@.take(i + 1).last() == nets@[i as int]);
        }
        if precedes(&nets[i], &m, opts) {
            m = nets[i];
        }
        i = i + 1;
    }
    proof {
        assert(nets@.take(nets@.len() as int) =~= nets@);
    }
    m
}

/// The text of a line's spans: their texts concatenated.
pub(crate) fn line_text(spans: &Vec<Span>) -> (r: String)
    ensures
        r@ == spans_text(spans_view(spans@)),
{
    let ghost sv = spans_view(spans@);
    let mut r = String::new();
    let mut i: usize = 0;
    while i < spans.len()
        invariant
            i <= spans@.len() == sv.len(),
            sv == spans_view(spans@),
            r@ == spans_text(sv.take(i as int)),
        decreases spans@.len() - i,
    {
        proof {
            assert(sv.take(i + 1).drop_last() =~= sv.take(i as int));
            assert(sv.take(i + 1).last() == sv[i as int]);
        }
        match &spans[i] {
            Span::Ip(t) => r.append(t.original()),
            Span::NonIp(s) => r.append(s.as_str()),
        }
        i = i + 1;
    }
    proof {
        assert(sv.take(sv.len() as int) =~= sv);
    }
    r
}

/// Keeps the spans of `spans` except the `Ip` spans whose network is in
/// `seen` or was kept before; extends `seen` by the networks kept.
fn drop_seen_ips(spans: Vec<Span>, seen: &mut Vec<Net>) -> (r: Vec<Span>)
    requires
        spans_wf(spans_view(spans@)),
    ensures
        (spans_view(r@), final(seen)@) == keep_unseen(spans_view(spans@), old(seen)@),
        spans_wf(spans_view(r@)),
{
    let ghost sv = spans_view(spans@);
    let ghost seen0 = seen@;
    let mut kept: Vec<Span> = Vec::new();
    for span in it: spans
        invariant
            sv == spans_view(it.seq()),
            spans_wf(sv),
            (spans_view(kept@), seen@) == keep_unseen(sv.take(it.index()), seen0),
            spans_wf(spans_view(kept@)),
    {
        proof {
            assert(sv[it.index()] == span@);
            assert(sv.take(it.index() + 1).drop_last() =~= sv.take(it.index()));
            assert(sv.take(it.index() + 1).last() == span@);
        }
        let ghost kv = spans_view(kept@);
        let keep = match &span {
            Span::NonIp(_) => true,
            Span::Ip(t) => match t.network() {
                Some(n) => {
                    if contains_net(seen, n) {
                        false
                    } else {
                        seen.push(n);
                        true
                    }
                },
                None => false,
            },
        };
        if keep {
            kept.push(span);
            proof {
                assert(spans_view(kept@) =~= kv.push(span@));
                let nk = spans_view(kept@);
                assert forall|k: int| 0 <= k < nk.len() implies (#[trigger] nk[k]).wf() by {
                    if k < kv.len() {
                        assert(nk[k] == kv[k]);
                    }
                }
            }
        }
    }
    proof {
        assert(sv.take(sv.len() as int) =~= sv);
    }
    kept
}


proof fn lemma_first_seen_from(ips: Seq<Net>, seen: Seq<Net>, j: int)
    requires
        0 <= j <= ips.len(),
        forall|k: int| 0 <= k < j ==> !seen.contains(#[trigger] ips[k]),
    ensures
        first_seen(ips, seen) == first_seen(ips.skip(j), seen),
    decreases j,
{
    if j > 0 {
        let t = ips.drop_first();
        assert forall|k: int| 0 <= k < j - 1 implies !seen.contains(#[trigger] t[k]) by {
            assert(t[k] == ips[k + 1]);
        }
        lemma_first_seen_from(t, seen, j - 1);
        assert(t.skip(j - 1) =~= ips.skip(j));
        assert(!seen.contains(ips[0]));
    } else {
        assert(ips.skip(0) =~= ips);
    }
}

proof fn lemma_dedup_err_persists(lines: Seq<LineView>, mode: IpsOnlyMode, i: int)
    requires
        0 <= i <= lines.len(),
        dedup_state(lines.take(i), mode) is Err,
    ensures
        dedup_state(lines, mode) == dedup_state(lines.take(i), mode),
    decreases lines.len() - i,
{
    if i == lines.len() {
        assert(lines.take(i) =~= lines);
    } else {
        assert(lines.take(i + 1).drop_last() =~= lines.take(i));
        lemma_dedup_err_persists(lines, mode, i + 1);
    }
}

/// The first network of `ips` that occurs in `seen`.
fn find_seen(ips: &Vec<Net>, seen: &Vec<Net>) -> (r: Option<Net>)
    ensures
        r == first_seen(ips@, seen@),
{
    let mut j: usize = 0;
    while j < ips.len()
        invariant
            j <= ips@.len(),
            forall|k: int| 0 <= k < j ==> !seen@.contains(#[trigger] ips@[k]),
        decreases ips@.len() - j,
    {
        if contains_net(seen, ips[j]) {
            proof {
                lemma_first_seen_from(ips@, seen@, j as int);
                assert(ips@.skip(j as int)[0] == ips@[j as int]);
            }
            return Some(ips[j]);
        }
        j = j + 1;
    }
    proof {
        lemma_first_seen_from(ips@, seen@, ips@.len() as int);
    }
    None
}

/// Appends the networks of `ips` to `seen`.
fn extend_nets(seen: &mut Vec<Net>, ips: &Vec<Net>)
    ensures
        final(seen)@ == old(seen)@ + ips@,
{
    let ghost seen0 = seen@;
    let mut j: usize = 0;
    while j < ips.len()
        invariant
            j <= ips@.len(),
            seen@ == seen0 + ips@.take(j as int),
        decreases ips@.len() - j,
    {
        seen.push(ips[j]);
        assert(ips@.take(j + 1) =~= ips@.take(j as int).push(ips@[j as int]));
        j = j + 1;
    }
    assert(ips@.take(ips@.len() as int) =~= ips@);
}

/// Error returned when deduplication meets an ambiguous duplicate: a
/// multi-IP line, outside ips-only mode, holding an IP already seen.
#[derive(Debug)]
pub struct DeduplicateError {
    /// The original line content that caused the error.
    pub line: String,
    /// The normalized network that was already seen.
    pub duplicate_ip: Net,
}

/// The result of deduplicating `lines` in mode `mode`.
pub open spec fn dedup_model(lines: Seq<LineView>, mode: IpsOnlyMode) -> Result<
    Seq<LineView>,
    (Seq<char>, Net),
> {
    match dedup_state(lines, mode) {
        Ok((out, _)) => Ok(out),
        Err(e) => Err(e),
    }
}

/// What `keep_unseen` keeps and records: the seen networks grow by exactly
/// the networks of the kept spans, every network of the spans ends up seen,
/// only networks of the spans are kept, and no network is recorded twice.
proof fn lemma_keep_unseen(spans: Seq<SpanView>, seen: Seq<Net>)
    ensures
        keep_unseen(spans, seen).1 == seen + span_nets(keep_unseen(spans, seen).0),
        forall|n: Net| span_nets(spans).contains(n) ==> keep_unseen(spans, seen).1.contains(n),
        forall|n: Net| span_nets(keep_unseen(spans, seen).0).contains(n) ==> span_nets(spans).contains(n),
        seen.no_duplicates() ==> keep_unseen(spans, seen).1.no_duplicates(),
    decreases spans.len(),
{
    if spans.len() == 0 {
        assert(seen + seq![] =~= seen);
    } else {
        let d = spans.drop_last();
        lemma_keep_unseen(d, seen);
        let (kept, now_seen) = keep_unseen(d, seen);
        let s = spans.last();
        assert(span_nets(spans) == match s.net() {
            Some(n) => span_nets(d).push(n),
            None => span_nets(d),
        });
        match s.net() {
            Some(n) => {
                if !now_seen.contains(n) {
                    assert(kept.push(s).drop_last() =~= kept);
                    assert(span_nets(kept.push(s)) == span_nets(kept).push(n));
                    assert(seen + span_nets(kept).push(n) =~= now_seen.push(n));
                    assert forall|m: Net| span_nets(spans).contains(m) implies now_seen.push(n).contains(m) by {
                        if m != n {
                            let i = choose|i: int| 0 <= i < span_nets(spans).len() && span_nets(spans)[i] == m;
                            assert(span_nets(d)[i] == m);
                            assert(span_nets(d).contains(m));
                            assert(now_seen.contains(m));
                            let k = choose|k: int| 0 <= k < now_seen.len() && now_seen[k] == m;
                            assert(now_seen.push(n)[k] == m);
                        } else {
                            assert(now_seen.push(n)[now_seen.len() as int] == n);
                        }
                    }
                    assert forall|m: Net| span_nets(kept.push(s)).contains(m) implies span_nets(spans).contains(m) by {
                        let i = choose|i: int| 0 <= i < span_nets(kept.push(s)).len() && span_nets(kept.push(s))[i] == m;
                        if i < span_nets(kept).len() {
                            assert(span_nets(kept)[i] == m);
                            assert(span_nets(d).contains(m));
                            let j = choose|j: int| 0 <= j < span_nets(d).len() && span_nets(d)[j] == m;
                            assert(span_nets(spans)[j] == m);
                        } else {
                            assert(span_nets(spans)[span_nets(d).len() as int] == n);
                        }
                    }
                    if seen.no_duplicates() {
                        assert forall|i: int, j: int| 0 <= i < now_seen.push(n).len() && 0 <= j < now_seen.push(n).len() && i != j implies now_seen.push(n)[i] != now_seen.push(n)[j] by {
                            if i < now_seen.len() && j < now_seen.len() {
                                assert(now_seen.push(n)[i] == now_seen[i]);
                                assert(now_seen.push(n)[j] == now_seen[j]);
                            } else if i < now_seen.len() {
                                assert(now_seen.push(n)[i] == now_seen[i]);
                            } else {
                                assert(now_seen.push(n)[j] == now_seen[j]);
                            }
                        }
                    }
                } else {
                    assert forall|m: Net| span_nets(spans).contains(m) implies now_seen.contains(m) by {
                        if m != n {
                            let i = choose|i: int| 0 <= i < span_nets(spans).len() && span_nets(spans)[i] == m;
                            assert(span_nets(d)[i] == m);
                            assert(span_nets(d).contains(m));
                        }
                    }
                    assert forall|m: Net| span_nets(kept).contains(m) implies span_nets(spans).contains(m) by {
                        assert(span_nets(d).contains(m));
                        let j = choose|j: int| 0 <= j < span_nets(d).len() && span_nets(d)[j] == m;
                        assert(span_nets(spans)[j] == m);
                    }
                }
            },
            None => {
                if s is NonIp {
                    assert(kept.push(s).drop_last() =~= kept);
                    assert(span_nets(kept.push(s)) == span_nets(kept));
                }
                assert forall|m: Net| span_nets(keep_unseen(spans, seen).0).contains(m) implies span_nets(spans).contains(m) by {
                    assert(span_nets(kept).contains(m));
                    assert(span_nets(spans) == span_nets(d));
                }
            },
        }
    }
}

/// The first seen network of `ips` is absent exactly when no network of
/// `ips` is seen.
proof fn lemma_first_seen_none(ips: Seq<Net>, seen: Seq<Net>)
    ensures
        first_seen(ips, seen) is None <==> forall|i: int| 0 <= i < ips.len() ==> !seen.contains(#[trigger] ips[i]),
    decreases ips.len(),
{
    if ips.len() > 0 {
        lemma_first_seen_none(ips.drop_first(), seen);
        assert forall|i: int| 1 <= i < ips.len() implies ips[i] == #[trigger] ips.drop_first()[i - 1] by {}
        if first_seen(ips, seen) is None {
            assert forall|i: int| 0 <= i < ips.len() implies !seen.contains(#[trigger] ips[i]) by {
                if i > 0 {
                    assert(ips.drop_first()[i - 1] == ips[i]);
                }
            }
        }
    }
}

/// The seen networks are the networks of the output in order, none twice,
/// and exactly the networks of the lines `lines` read so far.
pub open spec fn dedup_inv(lines: Seq<LineView>, out: Seq<LineView>, seen: Seq<Net>) -> bool {
    &&& seen == all_nets(out)
    &&& seen.no_duplicates()
    &&& forall|n: Net| all_nets(lines).contains(n) <==> seen.contains(n)
}

/// One deduplication step keeps `dedup_inv`.
proof fn lemma_dedup_step_inv(p: Seq<LineView>, out: Seq<LineView>, seen: Seq<Net>, l: LineView, mode: IpsOnlyMode)
    requires
        dedup_inv(p, out, seen),
    ensures
        dedup_step(out, seen, l, mode) is Ok ==> dedup_inv(
            p.push(l),
            dedup_step(out, seen, l, mode)->Ok_0.0,
            dedup_step(out, seen, l, mode)->Ok_0.1,
        ),
{
    let lines = p.push(l);
    assert(lines.drop_last() =~= p);
    assert(all_nets(lines) == all_nets(p) + match l {
        LineView::HasIp { spans, .. } => span_nets(spans),
        LineView::NoIp(_) => seq![],
    });
    match l {
        LineView::NoIp(_) => {
            assert(out.push(l).drop_last() =~= out);
            assert(all_nets(out.push(l)) =~= all_nets(out));
            assert(all_nets(lines) =~= all_nets(p));
            assert(dedup_inv(lines, out.push(l), seen));
        },
        LineView::HasIp { spans, warnings, .. } => {
            let d = keep_unseen(spans, seq![]).0;
            lemma_keep_unseen(spans, seq![]);
            assert(Seq::<Net>::empty() + span_nets(d) =~= span_nets(d));
            let ips = span_nets(d);
            assert(Seq::<Net>::empty().no_duplicates());
            assert forall|n: Net| #[trigger] all_nets(lines).contains(n) <==> (all_nets(p).contains(n)
                || span_nets(spans).contains(n)) by {
                if all_nets(lines).contains(n) {
                    let i = choose|i: int| 0 <= i < all_nets(lines).len() && all_nets(lines)[i] == n;
                    if i < all_nets(p).len() {
                        assert(all_nets(p)[i] == n);
                    } else {
                        assert(span_nets(spans)[i - all_nets(p).len()] == n);
                    }
                }
                if all_nets(p).contains(n) {
                    let i = choose|i: int| 0 <= i < all_nets(p).len() && all_nets(p)[i] == n;
                    assert(all_nets(lines)[i] == n);
                }
                if span_nets(spans).contains(n) {
                    let i = choose|i: int| 0 <= i < span_nets(spans).len() && span_nets(spans)[i] == n;
                    assert(all_nets(lines)[all_nets(p).len() + i] == n);
                }
            }
            if ips.len() == 0 {
                assert forall|n: Net| #[trigger] all_nets(lines).contains(n) <==> seen.contains(n) by {
                    if span_nets(spans).contains(n) {
                        assert(ips.contains(n));
                    }
                }
                assert(dedup_inv(lines, out, seen));
            } else if mode != IpsOnlyMode::Off {
                lemma_keep_unseen(d, seen);
                let (ns, seen2) = keep_unseen(d, seen);
                let nl = LineView::HasIp {
                    spans: ns,
                    sort_key: first_min(span_nets(ns), default_sort_options()),
                    warnings,
                };
                assert(out.push(nl).drop_last() =~= out);
                assert(all_nets(out.push(nl)) == all_nets(out) + span_nets(ns));
                if span_nets(ns).len() == 0 {
                    assert(seen2 =~= seen);
                }
                assert forall|n: Net| #[trigger] seen2.contains(n) implies (seen.contains(n) || span_nets(spans).contains(n)) by {
                    let i = choose|i: int| 0 <= i < seen2.len() && seen2[i] == n;
                    if i >= seen.len() {
                        assert(span_nets(ns)[i - seen.len()] == n);
                        assert(span_nets(ns).contains(n));
                    }
                }
                assert forall|n: Net| #[trigger] seen.contains(n) implies seen2.contains(n) by {
                    let i = choose|i: int| 0 <= i < seen.len() && seen[i] == n;
                    assert(seen2[i] == n);
                }
                assert forall|n: Net| #[trigger] all_nets(lines).contains(n) <==> seen2.contains(n) by {
                    if span_nets(spans).contains(n) {
                        assert(ips.contains(n));
                        assert(keep_unseen(d, seen).1.contains(n));
                    }
                    if all_nets(p).contains(n) {
                        assert(seen.contains(n));
                        assert(seen2.contains(n));
                    }
                }
                if span_nets(ns).len() > 0 {
                    assert(dedup_inv(lines, out.push(nl), seen2));
                } else {
                    assert(dedup_inv(lines, out, seen2));
                }
            } else if ips.len() > 1 {
                if first_seen(ips, seen) is None {
                    lemma_first_seen_none(ips, seen);
                    let nl = LineView::HasIp {
                        spans: d,
                        sort_key: first_min(ips, default_sort_options()),
                        warnings,
                    };
                    assert(out.push(nl).drop_last() =~= out);
                    assert(all_nets(out.push(nl)) == all_nets(out) + ips);
                    let s2 = seen + ips;
                    assert forall|i: int, j: int| 0 <= i < s2.len() && 0 <= j < s2.len() && i != j implies s2[i] != s2[j] by {
                        if i >= seen.len() && j < seen.len() {
                            assert(ips[i - seen.len()] == s2[i]);
                            assert(seen.contains(s2[j]));
                        } else if i < seen.len() && j >= seen.len() {
                            assert(ips[j - seen.len()] == s2[j]);
                            assert(seen.contains(s2[i]));
                        } else if i >= seen.len() && j >= seen.len() {
                            assert(ips[i - seen.len()] == s2[i]);
                            assert(ips[j - seen.len()] == s2[j]);
                        }
                    }
                    assert forall|n: Net| #[trigger] s2.contains(n) <==> (seen.contains(n) || ips.contains(n)) by {
                        if s2.contains(n) {
                            let i = choose|i: int| 0 <= i < s2.len() && s2[i] == n;
                            if i >= seen.len() {
                                assert(ips[i - seen.len()] == n);
                            }
                        }
                        if seen.contains(n) {
                            let i = choose|i: int| 0 <= i < seen.len() && seen[i] == n;
                            assert(s2[i] == n);
                        }
                        if ips.contains(n) {
                            let i = choose|i: int| 0 <= i < ips.len() && ips[i] == n;
                            assert(s2[seen.len() + i] == n);
                        }
                    }
                    assert forall|n: Net| #[trigger] all_nets(lines).contains(n) <==> s2.contains(n) by {
                        if span_nets(spans).contains(n) {
                            assert(ips.contains(n));
                        }
                    }
                    assert(dedup_inv(lines, out.push(nl), s2));
                }
            } else {
                assert forall|n: Net| span_nets(spans).contains(n) implies n == ips[0] by {
                    assert(ips.contains(n));
                }
                if !seen.contains(ips[0]) {
                    let nl = LineView::HasIp {
                        spans: d,
                        sort_key: first_min(ips, default_sort_options()),
                        warnings,
                    };
                    assert(out.push(nl).drop_last() =~= out);
                    assert(ips =~= seq![ips[0]]);
                    assert(all_nets(out.push(nl)) =~= seen.push(ips[0]));
                    let s2 = seen.push(ips[0]);
                    assert forall|i: int, j: int| 0 <= i < s2.len() && 0 <= j < s2.len() && i != j implies s2[i] != s2[j] by {
                        if i < seen.len() && j < seen.len() {
                        } else if i < seen.len() {
                            assert(seen.contains(s2[i]));
                        } else {
                            assert(seen.contains(s2[j]));
                        }
                    }
                    assert forall|n: Net| #[trigger] s2.contains(n) <==> (seen.contains(n) || n == ips[0]) by {
                        if s2.contains(n) {
                            let i = choose|i: int| 0 <= i < s2.len() && s2[i] == n;
                            if i < seen.len() {
                                assert(seen[i] == n);
                            }
                        }
                        if seen.contains(n) {
                            let i = choose|i: int| 0 <= i < seen.len() && seen[i] == n;
                            assert(s2[i] == n);
                        }
                        if n == ips[0] {
                            assert(s2[seen.len() as int] == n);
                        }
                    }
                    assert(dedup_inv(lines, out.push(nl), s2));
                } else {
                    assert(dedup_inv(lines, out, seen));
                }
            }
        },
    }
}

/// What deduplication keeps in step, after any number of lines.
proof fn lemma_dedup_state_inv(lines: Seq<LineView>, mode: IpsOnlyMode)
    ensures
        dedup_state(lines, mode) is Ok ==> dedup_inv(
            lines,
            dedup_state(lines, mode)->Ok_0.0,
            dedup_state(lines, mode)->Ok_0.1,
        ),
    decreases lines.len(),
{
    if lines.len() > 0 {
        let p = lines.drop_last();
        lemma_dedup_state_inv(p, mode);
        if let Ok((out, seen)) = dedup_state(p, mode) {
            lemma_dedup_step_inv(p, out, seen, lines.last(), mode);
            assert(p.push(lines.last()) =~= lines);
        }
    } else {
        assert(all_nets(lines) =~= Seq::<Net>::empty());
    }
}

/// Deduplication leaves no network twice: where it succeeds, the networks
/// of the output, in document order, hold no duplicate, and they are
/// exactly the networks that occur in the input.
pub proof fn lemma_dedup_unique(lines: Seq<LineView>, mode: IpsOnlyMode)
    ensures
        dedup_model(lines, mode) matches Ok(out) ==> {
            &&& all_nets(out).no_duplicates()
            &&& forall|n: Net| all_nets(out).contains(n) <==> all_nets(lines).contains(n)
        },
{
    lemma_dedup_state_inv(lines, mode);
}

/// In the ips-only modes deduplication always succeeds: each seen IP is
/// dropped on its own.
pub proof fn lemma_dedup_ips_only_succeeds(lines: Seq<LineView>, mode: IpsOnlyMode)
    requires
        mode != IpsOnlyMode::Off,
    ensures
        dedup_model(lines, mode) is Ok,
    decreases lines.len(),
{
    if lines.len() > 0 {
        lemma_dedup_ips_only_succeeds(lines.drop_last(), mode);
    }
}

/// Deduplication passes every `NoIp` line through: where it succeeds, the
/// `NoIp` lines of the output are exactly those of the input, in order, in
/// every mode.
pub proof fn lemma_dedup_keeps_no_ip_lines(lines: Seq<LineView>, mode: IpsOnlyMode)
    ensures
        dedup_model(lines, mode) matches Ok(out) ==> no_ip_lines(out) == no_ip_lines(lines),
    decreases lines.len(),
{
    if lines.len() > 0 {
        let p = lines.drop_last();
        let l = lines.last();
        lemma_dedup_keeps_no_ip_lines(p, mode);
        if let Ok((out, seen)) = dedup_state(p, mode) {
            if let Ok((out2, _)) = dedup_step(out, seen, l, mode) {
                if l is NoIp {
                    assert(out2 == out.push(l));
                    assert(out2.drop_last() =~= out);
                } else if out2 != out {
                    assert(out2.drop_last() =~= out);
                    assert(out2.last() is HasIp);
                }
            }
        }
    }
}

/// Appending a well-formed line to well-formed lines keeps them well formed.
pub proof fn lemma_lines_wf_push(lines: Seq<LineView>, l: LineView)
    requires
        lines_wf(lines),
        l.wf(),
    ensures
        lines_wf(lines.push(l)),
{
    assert forall|i: int| 0 <= i < lines.push(l).len() implies (#[trigger] lines.push(l)[i]).wf() by {
        if i < lines.len() {
            assert(lines.push(l)[i] == lines[i]);
        }
    }
}

/// Deduplicates `HasIp` lines, removing IPs already seen in the output.
///
/// Duplicate IPs within a line are removed first (a line left with no IP is
/// dropped). Then, against the IPs of the lines before: in the ips-only
/// modes each seen IP is removed on its own (a line left with no IP is
/// dropped); otherwise a single-IP line is dropped when its IP was seen, and
/// a multi-IP line holding a seen IP is an error. `NoIp` lines pass through.
pub fn deduplicate_blocks(lines: Vec<ClassifiedLine>, ips_only: &IpsOnlyMode) -> (r: Result<
    Vec<ClassifiedLine>,
    DeduplicateError,
>)
    requires
        lines_wf(lines_view(lines@)),
    ensures
        match r {
            Ok(v) => dedup_model(lines_view(lines@), *ips_only) == Ok::<
                Seq<LineView>,
                (Seq<char>, Net),
            >(lines_view(v@)) && lines_wf(lines_view(v@)),
            Err(e) => dedup_model(lines_view(lines@), *ips_only) == Err::<
                Seq<LineView>,
                (Seq<char>, Net),
            >((e.line@, e.duplicate_ip)),
        },
{
    let ghost lv = lines_view(lines@);
    let mut seen: Vec<Net> = Vec::new();
    let mut output: Vec<ClassifiedLine> = Vec::new();
    assert(lv.take(0) =~= Seq::<LineView>::empty());
    assert(lines_view(output@) =~= Seq::<LineView>::empty());
    for line in it: lines
        invariant
            lv == lines_view(it.seq()),
            lines_wf(lv),
            dedup_state(lv.take(it.index()), *ips_only) == Ok::<
                (Seq<LineView>, Seq<Net>),
                (Seq<char>, Net),
            >((lines_view(output@), seen@)),
            lines_wf(lines_view(output@)),
    {
        let ghost l = line@;
        let ghost ov = lines_view(output@);
        proof {
            assert(lv[it.index()] == l);
            assert(lv.take(it.index() + 1).drop_last() =~= lv.take(it.index()));
            assert(lv.take(it.index() + 1).last() == l);
            assert(l.wf());
        }
        match line {
            ClassifiedLine::NoIp(_) => {
                output.push(line);
                assert(lines_view(output@) =~= ov.push(l));
                proof { lemma_lines_wf_push(ov, l); }
            },
            ClassifiedLine::HasIp { spans, sort_key: _, warnings } => {
                let mut intra: Vec<Net> = Vec::new();
                let deduped = drop_seen_ips(spans, &mut intra);
                let ips = nets_of(&deduped);
                if ips.len() > 0 {
                    match ips_only {
                        IpsOnlyMode::Off => {
                            if ips.len() > 1 {
                                match find_seen(&ips, &seen) {
                                    Some(n) => {
                                        let text = line_text(&deduped);
                                        proof {
                                            lemma_dedup_err_persists(lv, *ips_only, it.index() + 1);
                                        }
                                        return Err(DeduplicateError { line: text, duplicate_ip: n });
                                    },
                                    None => {},
                                }
                                extend_nets(&mut seen, &ips);
                                let key = min_net(&ips, &SortOptions::default());
                                let new_line = ClassifiedLine::HasIp { spans: deduped, sort_key: key, warnings };
                                output.push(new_line);
                                assert(lines_view(output@) =~= ov.push(new_line@));
                                proof { lemma_lines_wf_push(ov, new_line@); }
                            } else if !contains_net(&seen, ips[0]) {
                                seen.push(ips[0]);
                                let key = min_net(&ips, &SortOptions::default());
                                let new_line = ClassifiedLine::HasIp { spans: deduped, sort_key: key, warnings };
                                output.push(new_line);
                                assert(lines_view(output@) =~= ov.push(new_line@));
                                proof { lemma_lines_wf_push(ov, new_line@); }
                            }
                        },
                        _ => {
                            let new_spans = drop_seen_ips(deduped, &mut seen);
                            let new_ips = nets_of(&new_spans);
                            if new_ips.len() > 0 {
                                let key = min_net(&new_ips, &SortOptions::default());
                                let new_line = ClassifiedLine::HasIp { spans: new_spans, sort_key: key, warnings };
                                output.push(new_line);
                                assert(lines_view(output@) =~= ov.push(new_line@));
                                proof { lemma_lines_wf_push(ov, new_line@); }
                            }
                        },
                    }
                }
            },
        }
    }
    proof {
        assert(lv.take(lv.len() as int) =~= lv);
    }
    Ok(output)
}


/// The networks of all `Ip` spans of all `HasIp` lines, in document order.
pub open spec fn all_nets(lines: Seq<LineView>) -> Seq<Net>
    decreases lines.len(),
{
    if lines.len() == 0 {
        seq![]
    } else {
        all_nets(lines.drop_last()) + match lines.last() {
            LineView::HasIp { spans, .. } => span_nets(spans),
            LineView::NoIp(_) => seq![],
        }
    }
}

/// `s` with each run of consecutive equal elements reduced to its first.
pub open spec fn dedup_adjacent(s: Seq<Net>) -> Seq<Net>
    decreases s.len(),
{
    if s.len() == 0 {
        seq![]
    } else {
        let d = dedup_adjacent(s.drop_last());
        if d.len() > 0 && d.last() == s.last() {
            d
        } else {
            d.push(s.last())
        }
    }
}

/// Every element of `dedup_adjacent(s)` is an element of `s`.
proof fn lemma_dedup_adjacent_members(s: Seq<Net>)
    ensures
        forall|i: int| 0 <= i < dedup_adjacent(s).len() ==> s.contains(#[trigger] dedup_adjacent(s)[i]),
    decreases s.len(),
{
    if s.len() > 0 {
        lemma_dedup_adjacent_members(s.drop_last());
        let d = dedup_adjacent(s.drop_last());
        assert forall|i: int| 0 <= i < dedup_adjacent(s).len() implies s.contains(
            #[trigger] dedup_adjacent(s)[i],
        ) by {
            if i < d.len() {
                assert(dedup_adjacent(s)[i] == d[i]);
                let j = choose|j: int| 0 <= j < s.drop_last().len() && s.drop_last()[j] == d[i];
                assert(s[j] == d[i]);
            } else {
                assert(s[s.len() - 1] == s.last());
            }
        }
    }
}

/// The networks of `nets` stably sorted under `opts`.
pub open spec fn sorted_nets(nets: Seq<Net>, opts: SortOptions) -> Seq<Net> {
    sorted_by_key(nets.map_values(|n: Net| (n, ())), opts).map_values(|p: (Net, ())| p.0)
}

/// The pool of IPs that inline sorting redistributes: every IP of the input
/// sorted, with consecutive duplicates removed under `unique`.
pub open spec fn inline_pool(lines: Seq<LineView>, opts: SortOptions, unique: bool) -> Seq<Net> {
    let sorted = sorted_nets(all_nets(lines), opts);
    if unique {
        dedup_adjacent(sorted)
    } else {
        sorted
    }
}

/// An `Ip` span refilled from the pool at position `k`: the pool's network,
/// keeping the token where its network is that one, else a token written
/// from the network; an empty `NonIp` span once the pool is used up.
pub open spec fn refill_span(s: SpanView, pool: Seq<Net>, k: int) -> (SpanView, int) {
    match s {
        SpanView::NonIp(_) => (s, k),
        SpanView::Ip(t) => if k < pool.len() {
            let net = pool[k];
            if t.network() == Some(net) {
                (s, k + 1)
            } else {
                (
                    SpanView::Ip(
                        TokenView::ValidCidr {
                            original: ipnet_text(net),
                            network: net,
                            had_host_bits: false,
                        },
                    ),
                    k + 1,
                )
            }
        } else {
            (SpanView::NonIp(seq![]), k)
        },
    }
}

/// The spans refilled in order from the pool starting at position `k`, and
/// the position after them.
pub open spec fn refill_spans(spans: Seq<SpanView>, pool: Seq<Net>, k: int) -> (
    Seq<SpanView>,
    int,
)
    decreases spans.len(),
{
    if spans.len() == 0 {
        (seq![], k)
    } else {
        let (pre, k1) = refill_spans(spans.drop_last(), pool, k);
        let (s, k2) = refill_span(spans.last(), pool, k1);
        (pre.push(s), k2)
    }
}

/// The sort key of refilled spans: their first lowest IP, or `0.0.0.0/0`
/// where none is left.
pub open spec fn refilled_key(spans: Seq<SpanView>, opts: SortOptions) -> Net {
    if span_nets(spans).len() > 0 {
        first_min(span_nets(spans), opts)
    } else {
        Net { is_v6: false, addr: 0, prefix_len: 0 }
    }
}

/// The lines refilled in order from the pool, and the position after them.
pub open spec fn inline_state(lines: Seq<LineView>, pool: Seq<Net>, opts: SortOptions) -> (
    Seq<LineView>,
    int,
)
    decreases lines.len(),
{
    if lines.len() == 0 {
        (seq![], 0)
    } else {
        let (out, k) = inline_state(lines.drop_last(), pool, opts);
        match lines.last() {
            LineView::NoIp(_) => (out.push(lines.last()), k),
            LineView::HasIp { spans, warnings, .. } => {
                let (ns, k2) = refill_spans(spans, pool, k);
                (
                    out.push(
                        LineView::HasIp { spans: ns, sort_key: refilled_key(ns, opts), warnings },
                    ),
                    k2,
                )
            },
        }
    }
}

/// Inline sorting: the lines with every IP position refilled, in document
/// order, from the sorted pool of all the input's IPs.
pub open spec fn sort_inline_model(lines: Seq<LineView>, opts: SortOptions, unique: bool) -> Seq<
    LineView,
> {
    inline_state(lines, inline_pool(lines, opts, unique), opts).0
}


/// The networks of all `Ip` spans of all `HasIp` lines, in document order.
pub(crate) fn nets_of_lines(lines: &Vec<ClassifiedLine>) -> (r: Vec<Net>)
    requires
        lines_wf(lines_view(lines@)),
    ensures
        r@ == all_nets(lines_view(lines@)),
        forall|i: int| 0 <= i < r@.len() ==> (#[trigger] r@[i]).wf(),
{
    let ghost lv = lines_view(lines@);
    let mut all: Vec<Net> = Vec::new();
    let mut i: usize = 0;
    while i < lines.len()
        invariant
            i <= lines@.len() == lv.len(),
            lv == lines_view(lines@),
            lines_wf(lv),
            all@ == all_nets(lv.take(i as int)),
            forall|k: int| 0 <= k < all@.len() ==> (#[trigger] all@[k]).wf(),
        decreases lines@.len() - i,
    {
        proof {
            assert(lv.take(i + 1).drop_last() =~= lv.take(i as int));
            assert(lv.take(i + 1).last() == lv[i as int]);
            assert(lv[i as int].wf());
        }
        match &lines[i] {
            ClassifiedLine::HasIp { spans, .. } => {
                let nets = nets_of(spans);
                let ghost a0 = all@;
                extend_nets(&mut all, &nets);
                assert forall|k: int| 0 <= k < all@.len() implies (#[trigger] all@[k]).wf() by {
                    if k >= a0.len() {
                        assert(all@[k] == nets@[k - a0.len()]);
                    }
                }
            },
            ClassifiedLine::NoIp(_) => {
                assert(all_nets(lv.take(i + 1)) =~= all_nets(lv.take(i as int)));
            },
        }
        i = i + 1;
    }
    proof {
        assert(lv.take(lv.len() as int) =~= lv);
    }
    all
}

/// The networks of all `Ip` spans of all `HasIp` lines, in document order,
/// each paired with an empty payload for sorting.
fn collect_pool(lines: &Vec<ClassifiedLine>) -> (r: Vec<(Net, ())>)
    requires
        lines_wf(lines_view(lines@)),
    ensures
        r@ == all_nets(lines_view(lines@)).map_values(|n: Net| (n, ())),
        keys_wf(r@),
{
    let nets = nets_of_lines(lines);
    let mut pool: Vec<(Net, ())> = Vec::new();
    let mut j: usize = 0;
    while j < nets.len()
        invariant
            j <= nets@.len(),
            forall|k: int| 0 <= k < nets@.len() ==> (#[trigger] nets@[k]).wf(),
            keys_wf(pool@),
            pool@ == nets@.take(j as int).map_values(|n: Net| (n, ())),
        decreases nets@.len() - j,
    {
        pool.push((nets[j], ()));
        assert(nets@.take(j + 1).map_values(|n: Net| (n, ())) =~= nets@.take(j as int).map_values(
            |n: Net| (n, ()),
        ).push((nets@[j as int], ())));
        j = j + 1;
    }
    assert(nets@.take(nets@.len() as int) =~= nets@);
    pool
}

/// The keys of keyed networks, in order.
fn unkey(v: Vec<(Net, ())>) -> (r: Vec<Net>)
    ensures
        r@ == v@.map_values(|p: (Net, ())| p.0),
{
    let mut r: Vec<Net> = Vec::new();
    let mut i: usize = 0;
    while i < v.len()
        invariant
            i <= v@.len(),
            r@ == v@.take(i as int).map_values(|p: (Net, ())| p.0),
        decreases v@.len() - i,
    {
        r.push(v[i].0);
        assert(v@.take(i + 1).map_values(|p: (Net, ())| p.0) =~= v@.take(i as int).map_values(
            |p: (Net, ())| p.0,
        ).push(v@[i as int].0));
        i = i + 1;
    }
    assert(v@.take(v@.len() as int) =~= v@);
    r
}

/// `v` with each run of consecutive equal networks reduced to its first.
fn dedup_nets(v: Vec<Net>) -> (r: Vec<Net>)
    ensures
        r@ == dedup_adjacent(v@),
{
    let mut r: Vec<Net> = Vec::new();
    let mut i: usize = 0;
    while i < v.len()
        invariant
            i <= v@.len(),
            r@ == dedup_adjacent(v@.take(i as int)),
        decreases v@.len() - i,
    {
        proof {
            assert(v@.take(i + 1).drop_last() =~= v@.take(i as int));
            assert(v@.take(i + 1).last() == v@[i as int]);
        }
        let n = r.len();
        if n == 0 || r[n - 1] != v[i] {
            r.push(v[i]);
        }
        i = i + 1;
    }
    assert(v@.take(v@.len() as int) =~= v@);
    r
}

/// Refills the `Ip` spans of `spans` in order from `pool`, starting at
/// position `*k`, which is advanced past the networks used.
fn refill(spans: Vec<Span>, pool: &Vec<Net>, k: &mut usize) -> (r: Vec<Span>)
    requires
        *old(k) <= pool@.len(),
        spans_wf(spans_view(spans@)),
        forall|i: int| 0 <= i < pool@.len() ==> (#[trigger] pool@[i]).wf(),
    ensures
        (spans_view(r@), *final(k) as int) == refill_spans(spans_view(spans@), pool@, *old(k) as int),
        *final(k) <= pool@.len(),
        spans_wf(spans_view(r@)),
{
    let ghost sv = spans_view(spans@);
    let ghost k0 = *k as int;
    let mut out: Vec<Span> = Vec::new();
    for span in it: spans
        invariant
            sv == spans_view(it.seq()),
            spans_wf(sv),
            forall|i: int| 0 <= i < pool@.len() ==> (#[trigger] pool@[i]).wf(),
            *k <= pool@.len(),
            (spans_view(out@), *k as int) == refill_spans(sv.take(it.index()), pool@, k0),
            spans_wf(spans_view(out@)),
    {
        proof {
            assert(sv[it.index()] == span@);
            assert(sv.take(it.index() + 1).drop_last() =~= sv.take(it.index()));
            assert(sv.take(it.index() + 1).last() == span@);
        }
        let ghost ov = spans_view(out@);
        let new_span = match span {
            Span::NonIp(_) => span,
            Span::Ip(token) => {
                if *k < pool.len() {
                    let net = pool[*k];
                    *k = *k + 1;
                    let same = match token.network() {
                        Some(tn) => tn == net,
                        None => false,
                    };
                    if same {
                        Span::Ip(token)
                    } else {
                        Span::Ip(
                            ParsedToken::ValidCidr {
                                original: ipnet_to_string(net),
                                network: net,
                                had_host_bits: false,
                            },
                        )
                    }
                } else {
                    Span::NonIp(String::new())
                }
            },
        };
        out.push(new_span);
        proof {
            assert(spans_view(out@) =~= ov.push(new_span@));
            let nv = spans_view(out@);
            assert forall|i: int| 0 <= i < nv.len() implies (#[trigger] nv[i]).wf() by {
                if i < ov.len() {
                    assert(nv[i] == ov[i]);
                }
            }
        }
    }
    proof {
        assert(sv.take(sv.len() as int) =~= sv);
    }
    out
}

/// The sort key of refilled spans: their first lowest IP, or `0.0.0.0/0`.
fn refilled_sort_key(spans: &Vec<Span>, opts: &SortOptions) -> (r: Net)
    requires
        spans_wf(spans_view(spans@)),
    ensures
        r == refilled_key(spans_view(spans@), *opts),
        r.wf(),
{
    let nets = nets_of(spans);
    if nets.len() > 0 {
        min_net(&nets, opts)
    } else {
        Net { is_v6: false, addr: 0, prefix_len: 0 }
    }
}

/// Sorts all IP addresses of the input as one pool and redistributes them,
/// in sorted order, into the IP positions in document order.
///
/// Block separators play no part; `NoIp` lines and `NonIp` spans keep their
/// places. With `unique`, consecutive duplicates are removed from the sorted
/// pool first; an IP position left without an IP becomes empty text. Each
/// `HasIp` line's sort key is recomputed from its new spans.
pub fn sort_inline(lines: Vec<ClassifiedLine>, opts: &SortOptions, unique: bool) -> (r: Vec<
    ClassifiedLine,
>)
    requires
        lines_wf(lines_view(lines@)),
    ensures
        lines_view(r@) == sort_inline_model(lines_view(lines@), *opts, unique),
        lines_wf(lines_view(r@)),
{
    let ghost lv = lines_view(lines@);
    let keyed = collect_pool(&lines);
    let ghost keyed0 = keyed@;
    let sorted = stable_sort(keyed, opts);
    proof {
        crate::stable::lemma_sorted_by_key_len(keyed0, *opts);
    }
    let sorted_pool = unkey(sorted);
    let pool = if unique {
        dedup_nets(sorted_pool)
    } else {
        sorted_pool
    };
    let ghost pv = inline_pool(lv, *opts, unique);
    assert(pool@ == pv);
    assert forall|i: int| 0 <= i < pool@.len() implies (#[trigger] pool@[i]).wf() by {
        let sp = sorted_by_key(keyed0, *opts).map_values(|p: (Net, ())| p.0);
        if unique {
            lemma_dedup_adjacent_members(sp);
            let j = choose|j: int| 0 <= j < sp.len() && sp[j] == pool@[i];
            assert(sorted_by_key(keyed0, *opts)[j].0.wf());
        } else {
            assert(sorted_by_key(keyed0, *opts)[i].0.wf());
        }
    }
    let mut k: usize = 0;
    let mut output: Vec<ClassifiedLine> = Vec::new();
    assert(lv.take(0) =~= Seq::<LineView>::empty());
    assert(lines_view(output@) =~= Seq::<LineView>::empty());
    for line in it: lines
        invariant
            lv == lines_view(it.seq()),
            lines_wf(lv),
            pool@ == pv,
            forall|i: int| 0 <= i < pool@.len() ==> (#[trigger] pool@[i]).wf(),
            k <= pool@.len(),
            (lines_view(output@), k as int) == inline_state(lv.take(it.index()), pv, *opts),
            lines_wf(lines_view(output@)),
    {
        proof {
            assert(lv[it.index()] == line@);
            assert(lv.take(it.index() + 1).drop_last() =~= lv.take(it.index()));
            assert(lv.take(it.index() + 1).last() == line@);
            assert(line@.wf());
        }
        let ghost ov = lines_view(output@);
        let new_line = match line {
            ClassifiedLine::NoIp(_) => line,
            ClassifiedLine::HasIp { spans, warnings, .. } => {
                let ns = refill(spans, &pool, &mut k);
                let key = refilled_sort_key(&ns, opts);
                ClassifiedLine::HasIp { spans: ns, sort_key: key, warnings }
            },
        };
        output.push(new_line);
        proof {
            assert(lines_view(output@) =~= ov.push(new_line@));
            let nv = lines_view(output@);
            assert forall|i: int| 0 <= i < nv.len() implies (#[trigger] nv[i]).wf() by {
                if i < ov.len() {
                    assert(nv[i] == ov[i]);
                }
            }
        }
    }
    proof {
        assert(lv.take(lv.len() as int) =~= lv);
    }
    output
}


/// No network of `s` sorts strictly before an earlier one.
pub open spec fn nets_sorted(s: Seq<Net>, opts: SortOptions) -> bool {
    forall|i: int, j: int| 0 <= i < j < s.len() ==> !before(#[trigger] s[j], #[trigger] s[i], opts)
}

/// Every network of `s` has its host bits cleared.
pub open spec fn nets_truncated(s: Seq<Net>) -> bool {
    forall|i: int| 0 <= i < s.len() ==> (#[trigger] s[i]) == s[i].truncated()
}

/// The pool before duplicates are removed: the input's networks stably
/// sorted are in order and a permutation of them.
proof fn lemma_sorted_nets(nets: Seq<Net>, opts: SortOptions)
    ensures
        nets_sorted(sorted_nets(nets, opts), opts),
        sorted_nets(nets, opts).to_multiset() == nets.to_multiset(),
        sorted_nets(nets, opts).len() == nets.len(),
{
    let k = nets.map_values(|n: Net| (n, ()));
    let sk = sorted_by_key(k, opts);
    crate::stable::lemma_sorted_by_key_len(k, opts);
    lemma_sorted_by_key_is_sorted(k, opts);
    lemma_sorted_by_key_permutes(k, opts);
    let r = sorted_nets(nets, opts);
    assert forall|i: int, j: int| 0 <= i < j < r.len() implies !before(#[trigger] r[j], #[trigger] r[i], opts) by {
        assert(r[i] == sk[i].0 && r[j] == sk[j].0);
    }
    lemma_permutation_map(sk, k, |p: (Net, ())| p.0);
    assert(k.map_values(|p: (Net, ())| p.0) =~= nets);
}

/// Reducing runs of equal networks in an ordered sequence keeps it ordered,
/// keeps its last element and exactly its members, and shortens it at most;
/// where the networks have their host bits cleared, the result is strictly
/// increasing.
proof fn lemma_dedup_adjacent_sorted(s: Seq<Net>, opts: SortOptions)
    requires
        nets_sorted(s, opts),
    ensures
        nets_sorted(dedup_adjacent(s), opts),
        dedup_adjacent(s).len() <= s.len(),
        s.len() > 0 ==> dedup_adjacent(s).len() > 0 && dedup_adjacent(s).last() == s.last(),
        forall|n: Net| dedup_adjacent(s).contains(n) <==> s.contains(n),
        nets_truncated(s) ==> forall|i: int, j: int|
            0 <= i < j < dedup_adjacent(s).len() ==> before(
                #[trigger] dedup_adjacent(s)[i],
                #[trigger] dedup_adjacent(s)[j],
                opts,
            ),
    decreases s.len(),
{
    if s.len() > 0 {
        let t = s.drop_last();
        assert forall|i: int, j: int| 0 <= i < j < t.len() implies !before(#[trigger] t[j], #[trigger] t[i], opts) by {
            assert(t[i] == s[i] && t[j] == s[j]);
        }
        lemma_dedup_adjacent_sorted(t, opts);
        let d = dedup_adjacent(t);
        let x = s.last();
        assert forall|n: Net| dedup_adjacent(s).contains(n) <==> s.contains(n) by {
            if s.contains(n) {
                let i = choose|i: int| 0 <= i < s.len() && s[i] == n;
                if i < t.len() {
                    assert(t[i] == n);
                    assert(t.contains(n));
                    assert(d.contains(n));
                    let k = choose|k: int| 0 <= k < d.len() && d[k] == n;
                    assert(dedup_adjacent(s)[k] == n);
                } else {
                    assert(dedup_adjacent(s).last() == x);
                }
            }
            if dedup_adjacent(s).contains(n) {
                let k = choose|k: int| 0 <= k < dedup_adjacent(s).len() && dedup_adjacent(s)[k] == n;
                if k < d.len() {
                    assert(d[k] == n);
                    assert(d.contains(n));
                    assert(t.contains(n));
                    let i = choose|i: int| 0 <= i < t.len() && t[i] == n;
                    assert(s[i] == n);
                } else {
                    assert(s[s.len() - 1] == n);
                }
            }
        }
        if !(d.len() > 0 && d.last() == x) {
            let r = d.push(x);
            assert forall|i: int| 0 <= i < d.len() implies !before(x, #[trigger] d[i], opts) by {
                assert(d.contains(d[i]));
                assert(t.contains(d[i]));
                let k = choose|k: int| 0 <= k < t.len() && t[k] == d[i];
                assert(s[k] == d[i]);
            }
            assert forall|i: int, j: int| 0 <= i < j < r.len() implies !before(#[trigger] r[j], #[trigger] r[i], opts) by {
                if j < d.len() {
                    assert(r[i] == d[i] && r[j] == d[j]);
                } else {
                    assert(r[i] == d[i]);
                }
            }
            if nets_truncated(s) {
                assert(nets_truncated(t)) by {
                    assert forall|i: int| 0 <= i < t.len() implies (#[trigger] t[i]) == t[i].truncated() by {
                        assert(t[i] == s[i]);
                    }
                }
                assert forall|i: int, j: int| 0 <= i < j < r.len() implies before(#[trigger] r[i], #[trigger] r[j], opts) by {
                    if j < d.len() {
                        assert(r[i] == d[i] && r[j] == d[j]);
                    } else {
                        let m = d.last();
                        assert(m == t.last());
                        assert(t.last() == s[s.len() - 2]);
                        assert(m == s[s.len() - 2]);
                        assert(x == s[s.len() - 1]);
                        assert(!before(x, m, opts));
                        assert(m != x);
                        assert(m == m.truncated() && x == x.truncated());
                        lemma_before_strict_total_order(m, x, r[i], opts);
                        if i < d.len() - 1 {
                            assert(r[i] == d[i]);
                            assert(before(d[i], d[d.len() - 1], opts));
                            lemma_before_strict_total_order(r[i], m, x, opts);
                        } else {
                            assert(r[i] == m);
                        }
                    }
                }
            }
        }
    }
}

/// Refilling spans from the pool at position `k`: as many spans come out,
/// `NonIp` spans unchanged; the networks of the new spans are the next
/// networks of the pool, one per `Ip` span while the pool lasts.
proof fn lemma_refill_spans(spans: Seq<SpanView>, pool: Seq<Net>, k: int)
    requires
        spans_wf(spans),
        0 <= k <= pool.len(),
    ensures
        refill_spans(spans, pool, k).1 == if k + span_nets(spans).len() < pool.len() {
            k + span_nets(spans).len()
        } else {
            pool.len() as int
        },
        span_nets(refill_spans(spans, pool, k).0) == pool.subrange(k, refill_spans(spans, pool, k).1),
        refill_spans(spans, pool, k).0.len() == spans.len(),
        forall|i: int|
            0 <= i < spans.len() && (#[trigger] spans[i]) is NonIp ==> refill_spans(spans, pool, k).0[i]
                == spans[i],
    decreases spans.len(),
{
    if spans.len() == 0 {
        assert(pool.subrange(k, k) =~= Seq::<Net>::empty());
    } else {
        let d = spans.drop_last();
        assert forall|i: int| 0 <= i < d.len() implies (#[trigger] d[i]).wf() by {
            assert(d[i] == spans[i]);
        }
        lemma_refill_spans(d, pool, k);
        let (pre, k1) = refill_spans(d, pool, k);
        let s = spans.last();
        assert(s == spans[spans.len() - 1]);
        assert(s.wf());
        let (ns, k2) = refill_span(s, pool, k1);
        let r = pre.push(ns);
        assert(r.drop_last() =~= pre);
        match s {
            SpanView::NonIp(_) => {
                assert(span_nets(spans) == span_nets(d));
                assert(span_nets(r) == span_nets(pre));
            },
            SpanView::Ip(t) => {
                assert(span_nets(spans) == span_nets(d).push(t.network()->Some_0));
                if k1 < pool.len() {
                    assert(ns.net() == Some(pool[k1]));
                    assert(span_nets(r) == span_nets(pre).push(pool[k1]));
                    assert(pool.subrange(k, k1).push(pool[k1]) =~= pool.subrange(k, k1 + 1));
                } else {
                    assert(span_nets(r) == span_nets(pre));
                }
            },
        }
        assert forall|i: int| 0 <= i < spans.len() && (#[trigger] spans[i]) is NonIp implies r[i] == spans[i] by {
            if i < d.len() {
                assert(d[i] == spans[i]);
            }
        }
    }
}

/// A line after inline sorting keeps its decoration: a `HasIp` line stays
/// `HasIp` with as many spans, its `NonIp` spans and warnings unchanged.
pub open spec fn keeps_decoration(before_line: LineView, after_line: LineView) -> bool {
    match (before_line, after_line) {
        (
            LineView::HasIp { spans: s0, warnings: w0, .. },
            LineView::HasIp { spans: s1, warnings: w1, .. },
        ) => {
            &&& s1.len() == s0.len()
            &&& w1 == w0
            &&& forall|i: int| 0 <= i < s0.len() && (#[trigger] s0[i]) is NonIp ==> s1[i] == s0[i]
        },
        _ => false,
    }
}

/// Refilling lines in order from the pool: one line out per line in,
/// `NoIp` lines unchanged and `HasIp` lines keeping their decoration; the
/// networks of the output are the first networks of the pool, as many as
/// the input has IPs while the pool lasts.
proof fn lemma_inline_state(lines: Seq<LineView>, pool: Seq<Net>, opts: SortOptions)
    requires
        lines_wf(lines),
    ensures
        inline_state(lines, pool, opts).1 == if all_nets(lines).len() < pool.len() {
            all_nets(lines).len() as int
        } else {
            pool.len() as int
        },
        all_nets(inline_state(lines, pool, opts).0) == pool.take(inline_state(lines, pool, opts).1),
        inline_state(lines, pool, opts).0.len() == lines.len(),
        forall|i: int|
            0 <= i < lines.len() ==> (#[trigger] lines[i] is NoIp ==> inline_state(lines, pool, opts).0[i]
                == lines[i]) && (lines[i] is HasIp ==> keeps_decoration(
                lines[i],
                inline_state(lines, pool, opts).0[i],
            )),
    decreases lines.len(),
{
    if lines.len() == 0 {
        assert(pool.take(0) =~= Seq::<Net>::empty());
    } else {
        let d = lines.drop_last();
        assert forall|i: int| 0 <= i < d.len() implies (#[trigger] d[i]).wf() by {
            assert(d[i] == lines[i]);
        }
        lemma_inline_state(d, pool, opts);
        let (out, k) = inline_state(d, pool, opts);
        let l = lines.last();
        assert(l == lines[lines.len() - 1]);
        assert(l.wf());
        match l {
            LineView::NoIp(_) => {
                let r = out.push(l);
                assert(r.drop_last() =~= out);
                assert(all_nets(lines) =~= all_nets(d));
                assert(all_nets(r) =~= all_nets(out));
                assert forall|i: int| 0 <= i < lines.len() implies (#[trigger] lines[i] is NoIp ==> r[i] == lines[i]) && (
                lines[i] is HasIp ==> keeps_decoration(lines[i], r[i])) by {
                    if i < d.len() {
                        assert(d[i] == lines[i]);
                    }
                }
            },
            LineView::HasIp { spans, warnings, .. } => {
                lemma_refill_spans(spans, pool, k);
                let (ns, k2) = refill_spans(spans, pool, k);
                let nl = LineView::HasIp { spans: ns, sort_key: refilled_key(ns, opts), warnings };
                let r = out.push(nl);
                assert(r.drop_last() =~= out);
                assert(all_nets(lines) == all_nets(d) + span_nets(spans));
                assert(all_nets(r) == all_nets(out) + span_nets(ns));
                assert(pool.take(k) + pool.subrange(k, k2) =~= pool.take(k2));
                assert forall|i: int| 0 <= i < lines.len() implies (#[trigger] lines[i] is NoIp ==> r[i] == lines[i]) && (
                lines[i] is HasIp ==> keeps_decoration(lines[i], r[i])) by {
                    if i < d.len() {
                        assert(d[i] == lines[i]);
                    }
                }
            },
        }
    }
}

/// Inline sorting keeps the document's shape and redistributes the pool:
/// as many lines come out as went in, `NoIp` lines unchanged, `HasIp` lines
/// keeping their decoration, and the IPs of the output, in document order,
/// are exactly the pool (every IP of the input sorted, with runs of equal
/// IPs reduced to one under `unique`).
pub proof fn lemma_sort_inline_laws(lines: Seq<LineView>, opts: SortOptions, unique: bool)
    requires
        lines_wf(lines),
    ensures
        sort_inline_model(lines, opts, unique).len() == lines.len(),
        forall|i: int|
            0 <= i < lines.len() ==> (#[trigger] lines[i] is NoIp ==> sort_inline_model(lines, opts, unique)[i]
                == lines[i]) && (lines[i] is HasIp ==> keeps_decoration(
                lines[i],
                sort_inline_model(lines, opts, unique)[i],
            )),
        all_nets(sort_inline_model(lines, opts, unique)) == inline_pool(lines, opts, unique),
{
    let pool = inline_pool(lines, opts, unique);
    lemma_sorted_nets(all_nets(lines), opts);
    if unique {
        lemma_dedup_adjacent_sorted(sorted_nets(all_nets(lines), opts), opts);
    }
    lemma_inline_state(lines, pool, opts);
    assert(pool.take(pool.len() as int) =~= pool);
}

/// The pool of inline sorting is in order. Without `unique` it is a
/// permutation of the input's IPs; with `unique` it holds exactly the
/// input's IPs, and, where their host bits are cleared, each once.
pub proof fn lemma_inline_pool(lines: Seq<LineView>, opts: SortOptions, unique: bool)
    ensures
        nets_sorted(inline_pool(lines, opts, unique), opts),
        !unique ==> inline_pool(lines, opts, unique).to_multiset() == all_nets(lines).to_multiset(),
        unique ==> forall|n: Net| inline_pool(lines, opts, unique).contains(n) <==> all_nets(lines).contains(n),
        unique && nets_truncated(all_nets(lines)) ==> inline_pool(lines, opts, unique).no_duplicates(),
{
    broadcast use vstd::seq_lib::group_to_multiset_ensures;

    let nets = all_nets(lines);
    let s = sorted_nets(nets, opts);
    lemma_sorted_nets(nets, opts);
    if unique {
        lemma_dedup_adjacent_sorted(s, opts);
        assert forall|n: Net| s.contains(n) <==> nets.contains(n) by {
            assert(s.to_multiset().count(n) == nets.to_multiset().count(n));
        }
        if nets_truncated(nets) {
            assert forall|i: int| 0 <= i < s.len() implies (#[trigger] s[i]) == s[i].truncated() by {
                assert(s.contains(s[i]));
                assert(nets.contains(s[i]));
                let j = choose|j: int| 0 <= j < nets.len() && nets[j] == s[i];
                assert(nets[j] == nets[j].truncated());
            }
            let d = dedup_adjacent(s);
            assert forall|i: int, j: int| 0 <= i < d.len() && 0 <= j < d.len() && i != j implies d[i] != d[j] by {
                if i < j {
                    assert(before(d[i], d[j], opts));
                    lemma_before_strict_total_order(d[i], d[j], d[j], opts);
                } else {
                    assert(before(d[j], d[i], opts));
                    lemma_before_strict_total_order(d[j], d[i], d[i], opts);
                }
            }
        }
    }
}


/// An `Ip` span whose token is what parsing its own text gives.
pub open spec fn span_reads_back(s: SpanView) -> bool {
    match s {
        SpanView::Ip(t) => token_model(t.original()) == t,
        SpanView::NonIp(_) => true,
    }
}

/// Every `Ip` span of the line reads back from its text.
pub open spec fn line_reads_back(l: LineView) -> bool {
    match l {
        LineView::HasIp { spans, .. } => forall|j: int| 0 <= j < spans.len() ==> span_reads_back(#[trigger] spans[j]),
        LineView::NoIp(_) => true,
    }
}

/// The networks of spans that read back have no host bits.
proof fn lemma_span_nets_truncated(spans: Seq<SpanView>)
    requires
        spans_wf(spans),
        forall|j: int| 0 <= j < spans.len() ==> span_reads_back(#[trigger] spans[j]),
    ensures
        nets_truncated(span_nets(spans)),
    decreases spans.len(),
{
    if spans.len() > 0 {
        let d = spans.drop_last();
        assert forall|j: int| 0 <= j < d.len() implies (#[trigger] d[j]).wf() && span_reads_back(d[j]) by {
            assert(d[j] == spans[j]);
        }
        lemma_span_nets_truncated(d);
        let s = spans.last();
        assert(s == spans[spans.len() - 1]);
        if let SpanView::Ip(t) = s {
            lemma_token_network_normalized(t.original());
        }
        let p = span_nets(d);
        let q = span_nets(spans);
        assert forall|i: int| 0 <= i < q.len() implies (#[trigger] q[i]) == q[i].truncated() by {
            if i < p.len() {
                assert(q[i] == p[i]);
            }
        }
    }
}

/// The networks of lines that read back have no host bits.
proof fn lemma_all_nets_truncated(lines: Seq<LineView>)
    requires
        lines_wf(lines),
        forall|i: int| 0 <= i < lines.len() ==> line_reads_back(#[trigger] lines[i]),
    ensures
        nets_truncated(all_nets(lines)),
    decreases lines.len(),
{
    if lines.len() > 0 {
        let d = lines.drop_last();
        assert forall|i: int| 0 <= i < d.len() implies (#[trigger] d[i]).wf() && line_reads_back(d[i]) by {
            assert(d[i] == lines[i]);
        }
        lemma_all_nets_truncated(d);
        let l = lines.last();
        assert(l == lines[lines.len() - 1]);
        let ln = match l {
            LineView::HasIp { spans, .. } => span_nets(spans),
            LineView::NoIp(_) => seq![],
        };
        if let LineView::HasIp { spans, .. } = l {
            lemma_span_nets_truncated(spans);
        }
        let p = all_nets(d);
        let q = all_nets(lines);
        assert(q == p + ln);
        assert forall|i: int| 0 <= i < q.len() implies (#[trigger] q[i]) == q[i].truncated() by {
            if i < p.len() {
                assert(q[i] == p[i]);
            } else {
                assert(q[i] == ln[i - p.len()]);
            }
        }
    }
}

/// Refilling spans that read back, from a pool of networks that `ipnet`
/// writes back and that have no host bits, gives spans that read back.
proof fn lemma_refill_spans_read_back(spans: Seq<SpanView>, pool: Seq<Net>, k: int)
    requires
        spans_wf(spans),
        0 <= k <= pool.len(),
        forall|j: int| 0 <= j < spans.len() ==> span_reads_back(#[trigger] spans[j]),
        forall|m: int| 0 <= m < pool.len() ==> ipnet_writes_back(#[trigger] pool[m]) && pool[m] == pool[m].truncated(),
    ensures
        forall|j: int|
            0 <= j < refill_spans(spans, pool, k).0.len() ==> span_reads_back(
                #[trigger] refill_spans(spans, pool, k).0[j],
            ),
    decreases spans.len(),
{
    if spans.len() > 0 {
        let d = spans.drop_last();
        assert forall|j: int| 0 <= j < d.len() implies (#[trigger] d[j]).wf() && span_reads_back(d[j]) by {
            assert(d[j] == spans[j]);
        }
        lemma_refill_spans(d, pool, k);
        lemma_refill_spans_read_back(d, pool, k);
        let (pre, k1) = refill_spans(d, pool, k);
        let s = spans.last();
        assert(s == spans[spans.len() - 1]);
        let (ns, k2) = refill_span(s, pool, k1);
        if let SpanView::Ip(t) = s {
            if k1 < pool.len() {
                let net = pool[k1];
                if t.network() != Some(net) {
                    lemma_stripped_cidr_text(ipnet_text(net));
                    assert(token_model(ipnet_text(net)) == ns->Ip_0);
                }
            }
        }
        let r = pre.push(ns);
        assert forall|j: int| 0 <= j < r.len() implies span_reads_back(#[trigger] r[j]) by {
            if j < pre.len() {
                assert(r[j] == pre[j]);
            }
        }
    }
}

/// Refilling lines that read back, from such a pool, gives lines that read
/// back.
proof fn lemma_inline_state_read_back(lines: Seq<LineView>, pool: Seq<Net>, opts: SortOptions)
    requires
        lines_wf(lines),
        forall|i: int| 0 <= i < lines.len() ==> line_reads_back(#[trigger] lines[i]),
        forall|m: int| 0 <= m < pool.len() ==> ipnet_writes_back(#[trigger] pool[m]) && pool[m] == pool[m].truncated(),
    ensures
        forall|i: int|
            0 <= i < inline_state(lines, pool, opts).0.len() ==> line_reads_back(
                #[trigger] inline_state(lines, pool, opts).0[i],
            ),
    decreases lines.len(),
{
    if lines.len() > 0 {
        let d = lines.drop_last();
        assert forall|i: int| 0 <= i < d.len() implies (#[trigger] d[i]).wf() && line_reads_back(d[i]) by {
            assert(d[i] == lines[i]);
        }
        lemma_inline_state(d, pool, opts);
        lemma_inline_state_read_back(d, pool, opts);
        let (out, k) = inline_state(d, pool, opts);
        let l = lines.last();
        assert(l == lines[lines.len() - 1]);
        let nl = match l {
            LineView::NoIp(_) => l,
            LineView::HasIp { spans, warnings, .. } => {
                let ns = refill_spans(spans, pool, k).0;
                LineView::HasIp { spans: ns, sort_key: refilled_key(ns, opts), warnings }
            },
        };
        if let LineView::HasIp { spans, .. } = l {
            lemma_refill_spans_read_back(spans, pool, k);
        }
        let r = out.push(nl);
        assert(inline_state(lines, pool, opts).0 == r);
        assert forall|i: int| 0 <= i < r.len() implies line_reads_back(#[trigger] r[i]) by {
            if i < out.len() {
                assert(r[i] == out[i]);
            }
        }
    }
}

/// Inline sorting writes every IP it moves as its network's own text: where
/// the input's tokens are what parsing their texts gives (as classification
/// makes them), so are the output's, so each IP position shows the network
/// of the pool it holds. This rests on `ipnet` writing each network of the
/// input as a text that it parses back to that network.
pub proof fn lemma_sort_inline_reads_back(lines: Seq<LineView>, opts: SortOptions, unique: bool)
    requires
        lines_wf(lines),
        forall|i: int| 0 <= i < lines.len() ==> line_reads_back(#[trigger] lines[i]),
        forall|i: int| 0 <= i < all_nets(lines).len() ==> ipnet_writes_back(#[trigger] all_nets(lines)[i]),
    ensures
        forall|i: int|
            0 <= i < sort_inline_model(lines, opts, unique).len() ==> line_reads_back(
                #[trigger] sort_inline_model(lines, opts, unique)[i],
            ),
{
    broadcast use vstd::seq_lib::group_to_multiset_ensures;

    let nets = all_nets(lines);
    let pool = inline_pool(lines, opts, unique);
    lemma_all_nets_truncated(lines);
    lemma_inline_pool(lines, opts, unique);
    assert forall|m: int| 0 <= m < pool.len() implies ipnet_writes_back(#[trigger] pool[m]) && pool[m]
        == pool[m].truncated() by {
        assert(pool.contains(pool[m]));
        if !unique {
            assert(pool.to_multiset().count(pool[m]) > 0);
            assert(nets.to_multiset().count(pool[m]) > 0);
        }
        assert(nets.contains(pool[m]));
        let i = choose|i: int| 0 <= i < nets.len() && nets[i] == pool[m];
        assert(ipnet_writes_back(nets[i]));
        assert(nets[i] == nets[i].truncated());
    }
    lemma_inline_state_read_back(lines, pool, opts);
}

} // verus!
