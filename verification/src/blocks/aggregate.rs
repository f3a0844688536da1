//! Aggregation of the CIDRs of each block into their minimal supernets.
//!
//! The networks of a block go to `ipnet`'s `IpNet::aggregate`. Each
//! aggregate that merely restates one network of the block leaves its line
//! alone. Any other aggregate replaces the IP of the first line (in block
//! order) that it covers, keeping that line's decoration, and the other
//! lines it covers are dropped. A line with several IPs cannot take part in
//! such a merge: that is an error.

use crate::blocks::{all_nets, flush_buffer, line_text, nets_of, nets_of_lines, sort_buffer};
use crate::classify::{lines_view, lines_wf, span_nets, spans_text, spans_view, spans_wf};
use crate::classify::{ClassifiedLine, LineView, Span, SpanView};
use crate::parse::{ipnet_text, ipnet_to_string, Net, ParsedToken, TokenView};
use crate::sort::SortOptions;
use ipnet::{IpNet, Ipv4Net, Ipv6Net};
use vstd::prelude::*;

verus! {

/// What `ipnet`'s `IpNet::aggregate` returns for a list of networks.
pub uninterp spec fn ipnet_aggregate(nets: Seq<Net>) -> Seq<Net>;

/// The single address `a` of `g`'s family, as a network of full length.
pub open spec fn host_in(g: Net, a: u128) -> Net {
    Net { is_v6: g.is_v6, addr: a, prefix_len: if g.is_v6 { 128 } else { 32 } }
}

/// The last address of `g`: its network address with every host bit set.
pub open spec fn last_addr(g: Net) -> u128 {
    if g.is_v6 {
        g.network_addr() | !g.mask()
    } else {
        g.network_addr() | (!g.mask() & 0xffff_ffff)
    }
}

/// Some network of `s` covers `n`.
pub open spec fn covered_by(n: Net, s: Seq<Net>) -> bool {
    exists|j: int| 0 <= j < s.len() && covers(#[trigger] s[j], n)
}

/// Aggregates networks with `ipnet::IpNet::aggregate`, converting them to
/// `ipnet::IpNet` with `Ipv4Net::new` / `Ipv6Net::new` (which accept every
/// prefix length within the family's width) and back. The contract claims
/// that the result is a function of the networks; that every network in it
/// has a prefix length within its family's width (an `Ipv4Net` or
/// `Ipv6Net` has no other) and an IPv4 address of 32 bits; and what
/// `aggregate` does, as its source shows: the input ranges are merged into
/// maximal intervals, and each interval is cut into the largest aligned
/// blocks, from its start. So every input network lies inside one output
/// network, every address of an output network lies in some input network,
/// and the outputs come IPv4 first, then IPv6, each in increasing order
/// without overlap.
#[verifier::external_body]
fn aggregate_nets(nets: &Vec<Net>) -> (r: Vec<Net>)
    requires
        forall|i: int| 0 <= i < nets@.len() ==> (#[trigger] nets@[i]).wf(),
    ensures
        r@ == ipnet_aggregate(nets@),
        forall|i: int| 0 <= i < r@.len() ==> (#[trigger] r@[i]).wf(),
        forall|i: int| 0 <= i < nets@.len() ==> covered_by(#[trigger] nets@[i], r@),
        forall|j: int, a: u128|
            0 <= j < r@.len() && covers(#[trigger] r@[j], #[trigger] host_in(r@[j], a)) ==> covered_by(
                host_in(r@[j], a),
                nets@,
            ),
        forall|j: int, k: int|
            0 <= j < k < r@.len() ==> (#[trigger] r@[j].is_v6 ==> #[trigger] r@[k].is_v6) && (r@[j].is_v6
                == r@[k].is_v6 ==> last_addr(r@[j]) < r@[k].network_addr()),
{
    let v: Vec<IpNet> = nets.iter().map(|n| match n.is_v6 {
        false => IpNet::V4(Ipv4Net::new((n.addr as u32).into(), n.prefix_len).unwrap()),
        true => IpNet::V6(Ipv6Net::new(n.addr.into(), n.prefix_len).unwrap()),
    }).collect();
    IpNet::aggregate(&v).into_iter().map(|a| match a {
        IpNet::V4(x) => Net { is_v6: false, addr: u32::from(x.addr()).into(), prefix_len: x.prefix_len() },
        IpNet::V6(x) => Net { is_v6: true, addr: x.addr().into(), prefix_len: x.prefix_len() },
    }).collect()
}

/// Network `g` covers network `n`: same family, `g` no longer than `n`, and
/// `n`'s address inside `g`.
pub open spec fn covers(g: Net, n: Net) -> bool {
    &&& g.is_v6 == n.is_v6
    &&& g.prefix_len <= n.prefix_len
    &&& n.addr & g.mask() == g.network_addr()
}

/// How many networks of `nets` `g` covers.
pub open spec fn count_covered(g: Net, nets: Seq<Net>) -> nat
    decreases nets.len(),
{
    if nets.len() == 0 {
        0
    } else {
        count_covered(g, nets.drop_last()) + if covers(g, nets.last()) {
            1nat
        } else {
            0nat
        }
    }
}

/// The aggregate `g` merges something in a block whose networks are `nets`:
/// it is not one network of the block covering nothing else.
pub open spec fn merging(g: Net, nets: Seq<Net>) -> bool {
    !(count_covered(g, nets) == 1 && nets.contains(g))
}

/// The first network of `aggs` that covers `n`.
pub open spec fn first_cover(aggs: Seq<Net>, n: Net) -> Option<Net>
    decreases aggs.len(),
{
    if aggs.len() == 0 {
        None
    } else {
        match first_cover(aggs.drop_last(), n) {
            Some(g) => Some(g),
            None => if covers(aggs.last(), n) {
                Some(aggs.last())
            } else {
                None
            },
        }
    }
}

/// The aggregate covering `n` if it merges something in a block with
/// networks `nets`.
pub open spec fn merging_cover(aggs: Seq<Net>, nets: Seq<Net>, n: Net) -> Option<Net> {
    match first_cover(aggs, n) {
        Some(g) => if merging(g, nets) {
            Some(g)
        } else {
            None
        },
        None => None,
    }
}

/// The merging aggregate of the first network of `ips` that has one.
pub open spec fn first_merging(ips: Seq<Net>, aggs: Seq<Net>, nets: Seq<Net>) -> Option<Net>
    decreases ips.len(),
{
    if ips.len() == 0 {
        None
    } else {
        match first_merging(ips.drop_last(), aggs, nets) {
            Some(g) => Some(g),
            None => merging_cover(aggs, nets, ips.last()),
        }
    }
}

/// The spans with every `Ip` span replaced by the network `g`, written out.
pub open spec fn replace_ips(spans: Seq<SpanView>, g: Net) -> Seq<SpanView> {
    spans.map_values(
        |s: SpanView|
            match s {
                SpanView::Ip(_) => SpanView::Ip(
                    TokenView::ValidCidr { original: ipnet_text(g), network: g, had_host_bits: false },
                ),
                SpanView::NonIp(_) => s,
            },
    )
}

/// Aggregation applied to one more line of a block, given the output so
/// far and the merging aggregates already placed; `Err` with the line's
/// text and the aggregate where a line with several IPs would be merged.
pub open spec fn aggregate_step(
    out: Seq<LineView>,
    placed: Seq<Net>,
    line: LineView,
    aggs: Seq<Net>,
    nets: Seq<Net>,
) -> Result<(Seq<LineView>, Seq<Net>), (Seq<char>, Net)> {
    match line {
        LineView::HasIp { spans, warnings, .. } => {
            let ips = span_nets(spans);
            if ips.len() > 1 {
                match first_merging(ips, aggs, nets) {
                    Some(g) => Err((spans_text(spans), g)),
                    None => Ok((out.push(line), placed)),
                }
            } else if ips.len() == 1 {
                match merging_cover(aggs, nets, ips[0]) {
                    Some(g) => if placed.contains(g) {
                        Ok((out, placed))
                    } else {
                        Ok(
                            (
                                out.push(
                                    LineView::HasIp {
                                        spans: replace_ips(spans, g),
                                        sort_key: g,
                                        warnings,
                                    },
                                ),
                                placed.push(g),
                            ),
                        )
                    },
                    None => Ok((out.push(line), placed)),
                }
            } else {
                Ok((out.push(line), placed))
            }
        },
        LineView::NoIp(_) => Ok((out.push(line), placed)),
    }
}

/// Aggregation of the first lines of a block in order, against the block's
/// networks `nets` and their aggregates `aggs`.
pub open spec fn aggregate_state(lines: Seq<LineView>, aggs: Seq<Net>, nets: Seq<Net>) -> Result<
    (Seq<LineView>, Seq<Net>),
    (Seq<char>, Net),
>
    decreases lines.len(),
{
    if lines.len() == 0 {
        Ok((seq![], seq![]))
    } else {
        match aggregate_state(lines.drop_last(), aggs, nets) {
            Err(e) => Err(e),
            Ok((out, placed)) => aggregate_step(out, placed, lines.last(), aggs, nets),
        }
    }
}

/// The block `block` with its lines merged along the aggregates `aggs` of
/// its networks, or the first line with several IPs that a merge involves.
pub open spec fn aggregate_block_model(block: Seq<LineView>, aggs: Seq<Net>) -> Result<
    Seq<LineView>,
    (Seq<char>, Net),
> {
    match aggregate_state(block, aggs, all_nets(block)) {
        Ok((out, _)) => Ok(out),
        Err(e) => Err(e),
    }
}

/// A block aggregated along `ipnet`'s aggregates of its networks, then
/// sorted by sort key.
pub open spec fn aggregate_flush(block: Seq<LineView>, opts: SortOptions) -> Result<
    Seq<LineView>,
    (Seq<char>, Net),
> {
    match aggregate_block_model(block, ipnet_aggregate(all_nets(block))) {
        Ok(b) => Ok(sort_buffer(b, opts)),
        Err(e) => Err(e),
    }
}

/// After the lines `lines`: the output so far and the buffered lines of the
/// current block, or the first error.
pub open spec fn aggregate_doc_state(lines: Seq<LineView>, opts: SortOptions) -> Result<
    (Seq<LineView>, Seq<LineView>),
    (Seq<char>, Net),
>
    decreases lines.len(),
{
    if lines.len() == 0 {
        Ok((seq![], seq![]))
    } else {
        match aggregate_doc_state(lines.drop_last(), opts) {
            Err(e) => Err(e),
            Ok((out, buf)) => {
                let l = lines.last();
                if l is HasIp {
                    Ok((out, buf.push(l)))
                } else {
                    match aggregate_flush(buf, opts) {
                        Ok(b) => Ok((out + b + seq![l], seq![])),
                        Err(e) => Err(e),
                    }
                }
            },
        }
    }
}

/// The lines with each block aggregated and sorted, `NoIp` lines kept as
/// separators, or the first error.
pub open spec fn aggregate_model(lines: Seq<LineView>, opts: SortOptions) -> Result<
    Seq<LineView>,
    (Seq<char>, Net),
> {
    match aggregate_doc_state(lines, opts) {
        Err(e) => Err(e),
        Ok((out, buf)) => match aggregate_flush(buf, opts) {
            Ok(b) => Ok(out + b),
            Err(e) => Err(e),
        },
    }
}

/// Error returned when aggregation would merge an IP of a line holding
/// several IPs, so that it is unclear which IP to replace.
#[derive(Debug)]
pub struct AggregateError {
    /// The original line content involved in the merge.
    pub line: String,
    /// The aggregate network that the line's IP would be merged into.
    pub aggregate: Net,
}

/// Whether `g` covers `n`.
fn covers_net(g: &Net, n: &Net) -> (r: bool)
    requires
        g.wf(),
    ensures
        r == covers(*g, *n),
{
    g.is_v6 == n.is_v6 && g.prefix_len <= n.prefix_len && (n.addr & g.netmask()) == g.network()
}

/// How many networks of `nets` `g` covers.
fn count_covered_in(g: &Net, nets: &Vec<Net>) -> (r: usize)
    requires
        g.wf(),
    ensures
        r == count_covered(*g, nets@),
{
    let mut c: usize = 0;
    let mut i: usize = 0;
    while i < nets.len()
        invariant
            i <= nets@.len(),
            g.wf(),
            c == count_covered(*g, nets@.take(i as int)),
            c <= i,
        decreases nets@.len() - i,
    {
        proof {
            assert(nets@.take(i + 1).drop_last() =~= nets@.take(i as int));
            assert(nets@.take(i + 1).last() == nets@[i as int]);
        }
        if covers_net(g, &nets[i]) {
            c = c + 1;
        }
        i = i + 1;
    }
    assert(nets@.take(nets@.len() as int) =~= nets@);
    c
}

/// Whether `n` occurs in `v`.
fn holds_net(v: &Vec<Net>, n: &Net) -> (r: bool)
    ensures
        r == v@.contains(*n),
{
    let mut i: usize = 0;
    while i < v.len()
        invariant
            i <= v@.len(),
            forall|k: int| 0 <= k < i ==> v@[k] != *n,
        decreases v@.len() - i,
    {
        if v[i] == *n {
            return true;
        }
        i = i + 1;
    }
    false
}

/// The aggregate of `aggs` covering `n` where it merges something in a block
/// with networks `nets`.
fn find_merging_cover(aggs: &Vec<Net>, nets: &Vec<Net>, n: &Net) -> (r: Option<Net>)
    requires
        forall|i: int| 0 <= i < aggs@.len() ==> (#[trigger] aggs@[i]).wf(),
    ensures
        r == merging_cover(aggs@, nets@, *n),
        r matches Some(g) ==> g.wf(),
{
    let mut found: Option<Net> = None;
    let mut i: usize = 0;
    while i < aggs.len()
        invariant
            i <= aggs@.len(),
            forall|k: int| 0 <= k < aggs@.len() ==> (#[trigger] aggs@[k]).wf(),
            found == first_cover(aggs@.take(i as int), *n),
            found matches Some(g) ==> g.wf(),
        decreases aggs@.len() - i,
    {
        proof {
            assert(aggs@.take(i + 1).drop_last() =~= aggs@.take(i as int));
            assert(aggs@.take(i + 1).last() == aggs@[i as int]);
        }
        if found.is_none() && covers_net(&aggs[i], n) {
            found = Some(aggs[i]);
        }
        i = i + 1;
    }
    assert(aggs@.take(aggs@.len() as int) =~= aggs@);
    match found {
        Some(g) => {
            let c = count_covered_in(&g, nets);
            if c == 1 && holds_net(nets, &g) {
                None
            } else {
                Some(g)
            }
        },
        None => None,
    }
}

/// The merging aggregate of the first network of `ips` that has one.
fn find_first_merging(ips: &Vec<Net>, aggs: &Vec<Net>, nets: &Vec<Net>) -> (r: Option<Net>)
    requires
        forall|i: int| 0 <= i < aggs@.len() ==> (#[trigger] aggs@[i]).wf(),
    ensures
        r == first_merging(ips@, aggs@, nets@),
{
    let mut found: Option<Net> = None;
    let mut i: usize = 0;
    while i < ips.len()
        invariant
            i <= ips@.len(),
            forall|k: int| 0 <= k < aggs@.len() ==> (#[trigger] aggs@[k]).wf(),
            found == first_merging(ips@.take(i as int), aggs@, nets@),
        decreases ips@.len() - i,
    {
        proof {
            assert(ips@.take(i + 1).drop_last() =~= ips@.take(i as int));
            assert(ips@.take(i + 1).last() == ips@[i as int]);
        }
        if found.is_none() {
            found = find_merging_cover(aggs, nets, &ips[i]);
        }
        i = i + 1;
    }
    assert(ips@.take(ips@.len() as int) =~= ips@);
    found
}

/// The spans with every `Ip` span replaced by the network `g`, written out.
fn replace_ip_spans(spans: Vec<Span>, g: Net) -> (r: Vec<Span>)
    requires
        g.wf(),
    ensures
        spans_view(r@) == replace_ips(spans_view(spans@), g),
{
    let ghost sv = spans_view(spans@);
    let mut out: Vec<Span> = Vec::new();
    for span in it: spans
        invariant
            sv == spans_view(it.seq()),
            g.wf(),
            spans_view(out@) == replace_ips(sv.take(it.index()), g),
    {
        proof {
            assert(sv[it.index()] == span@);
        }
        let ghost ov = spans_view(out@);
        let new_span = match span {
            Span::Ip(_) => Span::Ip(
                ParsedToken::ValidCidr { original: ipnet_to_string(g), network: g, had_host_bits: false },
            ),
            Span::NonIp(_) => span,
        };
        out.push(new_span);
        proof {
            assert(spans_view(out@) =~= ov.push(new_span@));
            assert(replace_ips(sv.take(it.index() + 1), g) =~= replace_ips(sv.take(it.index()), g).push(
                new_span@,
            ));
        }
    }
    proof {
        assert(sv.take(sv.len() as int) =~= sv);
    }
    out
}

/// Once aggregating the first `i` lines of a block fails, aggregating the
/// whole block fails the same way.
proof fn lemma_aggregate_err_persists(lines: Seq<LineView>, aggs: Seq<Net>, nets: Seq<Net>, i: int)
    requires
        0 <= i <= lines.len(),
        aggregate_state(lines.take(i), aggs, nets) is Err,
    ensures
        aggregate_state(lines, aggs, nets) == aggregate_state(lines.take(i), aggs, nets),
    decreases lines.len() - i,
{
    if i == lines.len() {
        assert(lines.take(i) =~= lines);
    } else {
        assert(lines.take(i + 1).drop_last() =~= lines.take(i));
        lemma_aggregate_err_persists(lines, aggs, nets, i + 1);
    }
}

/// Merges the lines of a block along the aggregates `aggs` of its networks:
/// a line whose IP an aggregate merely restates is kept; the first line
/// whose single IP a merging aggregate covers gets that aggregate in place
/// of its IP, keeping its decoration, and later such lines are dropped; a
/// line with several IPs of which one would be merged is an error.
pub fn aggregate_block(block: Vec<ClassifiedLine>, aggs: &Vec<Net>) -> (r: Result<
    Vec<ClassifiedLine>,
    AggregateError,
>)
    requires
        lines_wf(lines_view(block@)),
        forall|i: int| 0 <= i < aggs@.len() ==> (#[trigger] aggs@[i]).wf(),
    ensures
        match r {
            Ok(v) => aggregate_block_model(lines_view(block@), aggs@) == Ok::<
                Seq<LineView>,
                (Seq<char>, Net),
            >(lines_view(v@)) && lines_wf(lines_view(v@)),
            Err(e) => aggregate_block_model(lines_view(block@), aggs@) == Err::<
                Seq<LineView>,
                (Seq<char>, Net),
            >((e.line@, e.aggregate)),
        },
{
    let ghost lv = lines_view(block@);
    let nets = nets_of_lines(&block);
    let mut placed: Vec<Net> = Vec::new();
    let mut output: Vec<ClassifiedLine> = Vec::new();
    assert(lv.take(0) =~= Seq::<LineView>::empty());
    assert(lines_view(output@) =~= Seq::<LineView>::empty());
    for line in it: block
        invariant
            lv == lines_view(it.seq()),
            lines_wf(lv),
            nets@ == all_nets(lv),
            forall|i: int| 0 <= i < aggs@.len() ==> (#[trigger] aggs@[i]).wf(),
            aggregate_state(lv.take(it.index()), aggs@, nets@) == Ok::<
                (Seq<LineView>, Seq<Net>),
                (Seq<char>, Net),
            >((lines_view(output@), placed@)),
            lines_wf(lines_view(output@)),
    {
        let ghost l = line@;
        let ghost ov = lines_view(output@);
        proof {
            assert(lv[it.index()] == l);
            assert(lv.take(it.index() + 1).drop_last() =~= lv.take(it.index()));
            assert(lv.take(it.index() + 1).last() == l);
            assert(l.wf());
        }
        let kept = match line {
            ClassifiedLine::NoIp(_) => Some(line),
            ClassifiedLine::HasIp { spans, sort_key, warnings } => {
                let ips = nets_of(&spans);
                if ips.len() > 1 {
                    match find_first_merging(&ips, aggs, &nets) {
                        Some(g) => {
                            let text = line_text(&spans);
                            proof {
                                lemma_aggregate_err_persists(lv, aggs@, nets@, it.index() + 1);
                            }
                            return Err(AggregateError { line: text, aggregate: g });
                        },
                        None => Some(ClassifiedLine::HasIp { spans, sort_key, warnings }),
                    }
                } else if ips.len() == 1 {
                    match find_merging_cover(aggs, &nets, &ips[0]) {
                        Some(g) => {
                            if holds_net(&placed, &g) {
                                None
                            } else {
                                placed.push(g);
                                let ghost sv = spans_view(spans@);
                                let ns = replace_ip_spans(spans, g);
                                proof {
                                    let nv = spans_view(ns@);
                                    assert forall|k: int| 0 <= k < nv.len() implies (#[trigger] nv[k]).wf() by {
                                        assert(sv[k].wf());
                                    }
                                }
                                Some(ClassifiedLine::HasIp { spans: ns, sort_key: g, warnings })
                            }
                        },
                        None => Some(ClassifiedLine::HasIp { spans, sort_key, warnings }),
                    }
                } else {
                    Some(ClassifiedLine::HasIp { spans, sort_key, warnings })
                }
            },
        };
        match kept {
            Some(k) => {
                output.push(k);
                proof {
                    assert(lines_view(output@) =~= ov.push(k@));
                    let nv = lines_view(output@);
                    assert forall|i: int| 0 <= i < nv.len() implies (#[trigger] nv[i]).wf() by {
                        if i < ov.len() {
                            assert(nv[i] == ov[i]);
                        }
                    }
                }
            },
            None => {},
        }
    }
    proof {
        assert(lv.take(lv.len() as int) =~= lv);
    }
    Ok(output)
}

/// Aggregates the buffered block along `ipnet`'s aggregates of its
/// networks, sorts it and moves it to the output.
fn flush_aggregated(
    buffer: &mut Vec<ClassifiedLine>,
    output: &mut Vec<ClassifiedLine>,
    opts: &SortOptions,
) -> (r: Result<(), AggregateError>)
    requires
        lines_wf(lines_view(old(buffer)@)),
    ensures
        match r {
            Ok(_) => final(buffer)@.len() == 0 && aggregate_flush(lines_view(old(buffer)@), *opts) is Ok
                && lines_view(final(output)@) == lines_view(old(output)@) + aggregate_flush(
                lines_view(old(buffer)@),
                *opts,
            )->Ok_0 && (lines_wf(lines_view(old(output)@)) ==> lines_wf(lines_view(final(output)@)))
                && (forall|i: int|
                0 <= i < all_nets(lines_view(old(buffer)@)).len() ==> covered_by(
                    #[trigger] all_nets(lines_view(old(buffer)@))[i],
                    all_nets(lines_view(final(output)@)),
                )),
            Err(e) => aggregate_flush(lines_view(old(buffer)@), *opts) == Err::<
                Seq<LineView>,
                (Seq<char>, Net),
            >((e.line@, e.aggregate)),
        },
        r is Ok ==> forall|k: int|
            all_nets(lines_view(old(output)@)).len() <= k < all_nets(lines_view(final(output)@)).len()
                ==> addresses_within(
                #[trigger] all_nets(lines_view(final(output)@))[k],
                all_nets(lines_view(old(buffer)@)),
            ),
        r is Ok ==> all_nets(lines_view(final(output)@)) == all_nets(lines_view(old(output)@)) + all_nets(
            aggregate_flush(lines_view(old(buffer)@), *opts)->Ok_0,
        ),
{
    let mut taken: Vec<ClassifiedLine> = Vec::new();
    std::mem::swap(buffer, &mut taken);
    let nets = nets_of_lines(&taken);
    let aggs = aggregate_nets(&nets);
    let ghost tv0 = lines_view(taken@);
    match aggregate_block(taken, &aggs) {
        Ok(block) => {
            let mut block = block;
            let ghost o0 = lines_view(output@);
            let ghost bv = lines_view(block@);
            flush_buffer(&mut block, output, opts);
            proof {
                let tv = tv0;
                lemma_aggregate_block_covers(tv, aggs@);
                let sb = sort_buffer(bv, *opts);
                lemma_sort_buffer_nets(bv, *opts);
                lemma_all_nets_concat(o0, sb);
                let fo = all_nets(lines_view(output@));
                assert forall|i: int| 0 <= i < all_nets(tv).len() implies covered_by(
                    #[trigger] all_nets(tv)[i],
                    fo,
                ) by {
                    let n = all_nets(tv)[i];
                    assert(covered_by(n, all_nets(bv)));
                    let j = choose|j: int| 0 <= j < all_nets(bv).len() && covers(#[trigger] all_nets(bv)[j], n);
                    let m = all_nets(bv)[j];
                    assert(all_nets(bv).contains(m));
                    assert(all_nets(sb).contains(m));
                    let q = choose|q: int| 0 <= q < all_nets(sb).len() && all_nets(sb)[q] == m;
                    assert(fo[all_nets(o0).len() + q] == m);
                }
                lemma_sort_buffer_nets_back(bv, *opts);
                assert forall|k: int| all_nets(o0).len() <= k < fo.len() implies addresses_within(
                    #[trigger] fo[k],
                    all_nets(tv),
                ) by {
                    let m = fo[k];
                    assert(m == all_nets(sb)[k - all_nets(o0).len()]);
                    assert(all_nets(sb).contains(m));
                    assert(all_nets(bv).contains(m));
                    let q = choose|q: int| 0 <= q < all_nets(bv).len() && all_nets(bv)[q] == m;
                    if all_nets(tv).contains(m) {
                        lemma_within_member(m, all_nets(tv));
                    } else {
                        assert(aggs@.contains(m));
                        let j = choose|j: int| 0 <= j < aggs@.len() && aggs@[j] == m;
                        assert forall|a: u128| covers(m, #[trigger] host_in(m, a)) implies covered_by(
                            host_in(m, a),
                            all_nets(tv),
                        ) by {
                            assert(covers(aggs@[j], host_in(aggs@[j], a)));
                        }
                    }
                }
            }
            Ok(())
        },
        Err(e) => Err(e),
    }
}

/// Once the document state after the first `i` lines is an error, so is
/// the result for all the lines.
proof fn lemma_doc_err_persists(lines: Seq<LineView>, opts: SortOptions, i: int)
    requires
        0 <= i <= lines.len(),
        aggregate_doc_state(lines.take(i), opts) is Err,
    ensures
        aggregate_doc_state(lines, opts) == aggregate_doc_state(lines.take(i), opts),
    decreases lines.len() - i,
{
    if i == lines.len() {
        assert(lines.take(i) =~= lines);
    } else {
        assert(lines.take(i + 1).drop_last() =~= lines.take(i));
        lemma_doc_err_persists(lines, opts, i + 1);
    }
}

/// Merges the CIDRs of each block (a run of `HasIp` lines between `NoIp`
/// lines) into their minimal supernets with `ipnet`'s aggregation, then
/// sorts the block again under `opts`. The first line of a block that a
/// merge covers keeps its decoration and carries the aggregate; the other
/// lines of that merge are dropped. A merge that involves a line with
/// several IPs is an error. `NoIp` lines stay as separators.
pub fn aggregate_blocks(lines: Vec<ClassifiedLine>, opts: &SortOptions) -> (r: Result<
    Vec<ClassifiedLine>,
    AggregateError,
>)
    requires
        lines_wf(lines_view(lines@)),
    ensures
        match r {
            Ok(v) => aggregate_model(lines_view(lines@), *opts) == Ok::<
                Seq<LineView>,
                (Seq<char>, Net),
            >(lines_view(v@)) && lines_wf(lines_view(v@)) && forall|i: int|
                0 <= i < all_nets(lines_view(lines@)).len() ==> covered_by(
                    #[trigger] all_nets(lines_view(lines@))[i],
                    all_nets(lines_view(v@)),
                ) && forall|k: int|
                0 <= k < all_nets(lines_view(v@)).len() ==> addresses_within(
                    #[trigger] all_nets(lines_view(v@))[k],
                    all_nets(lines_view(lines@)),
                ),
            Err(e) => aggregate_model(lines_view(lines@), *opts) == Err::<
                Seq<LineView>,
                (Seq<char>, Net),
            >((e.line@, e.aggregate)),
        },
{
    let ghost lv = lines_view(lines@);
    let mut output: Vec<ClassifiedLine> = Vec::new();
    let mut buffer: Vec<ClassifiedLine> = Vec::new();
    assert(lv.take(0) =~= Seq::<LineView>::empty());
    assert(lines_view(output@) =~= Seq::<LineView>::empty());
    assert(lines_view(buffer@) =~= Seq::<LineView>::empty());
    assert(all_nets(lv.take(0)) =~= Seq::<Net>::empty());
    for line in it: lines
        invariant
            lv == lines_view(it.seq()),
            lines_wf(lv),
            lines_wf(lines_view(buffer@)),
            lines_wf(lines_view(output@)),
            aggregate_doc_state(lv.take(it.index()), *opts) == Ok::<
                (Seq<LineView>, Seq<LineView>),
                (Seq<char>, Net),
            >((lines_view(output@), lines_view(buffer@))),
            forall|i: int|
                0 <= i < all_nets(lv.take(it.index())).len() ==> covered_by(
                    #[trigger] all_nets(lv.take(it.index()))[i],
                    all_nets(lines_view(output@)),
                ) || all_nets(lines_view(buffer@)).contains(all_nets(lv.take(it.index()))[i]),
            forall|k: int|
                0 <= k < all_nets(lines_view(output@)).len() ==> addresses_within(
                    #[trigger] all_nets(lines_view(output@))[k],
                    all_nets(lv.take(it.index())),
                ),
            forall|m: Net|
                all_nets(lines_view(buffer@)).contains(m) ==> all_nets(lv.take(it.index())).contains(m),
    {
        proof {
            assert(lv[it.index()] == line@);
            assert(lv.take(it.index() + 1).drop_last() =~= lv.take(it.index()));
            assert(lv.take(it.index() + 1).last() == line@);
        }
        let ghost bv = lines_view(buffer@);
        let ghost ov = lines_view(output@);
        let ghost pre = lv.take(it.index());
        proof {
            lemma_all_nets_push(pre, line@);
            assert(pre.push(line@) =~= lv.take(it.index() + 1));
            let pn = all_nets(pre);
            let an = all_nets(lv.take(it.index() + 1));
            assert forall|m: Net| pn.contains(m) implies an.contains(m) by {
                let k = choose|k: int| 0 <= k < pn.len() && pn[k] == m;
                assert(an[k] == m);
            }
            assert forall|k: int| 0 <= k < all_nets(ov).len() implies addresses_within(
                #[trigger] all_nets(ov)[k],
                an,
            ) by {
                lemma_within_mono(all_nets(ov)[k], pn, an);
            }
        }
        match line {
            ClassifiedLine::HasIp { .. } => {
                buffer.push(line);
                proof {
                    assert(lines_view(buffer@) =~= bv.push(line@));
                    let nb = lines_view(buffer@);
                    assert forall|i: int| 0 <= i < nb.len() implies (#[trigger] nb[i]).wf() by {
                        if i < bv.len() {
                            assert(nb[i] == bv[i]);
                        } else {
                            assert(lv[it.index()].wf());
                        }
                    }
                    lemma_all_nets_push(bv, line@);
                    let pn = all_nets(pre);
                    let an = all_nets(lv.take(it.index() + 1));
                    let bn = all_nets(nb);
                    assert forall|i: int| 0 <= i < an.len() implies covered_by(#[trigger] an[i], all_nets(ov))
                        || bn.contains(an[i]) by {
                        if i < pn.len() {
                            assert(an[i] == pn[i]);
                            if all_nets(bv).contains(pn[i]) {
                                let k = choose|k: int| 0 <= k < all_nets(bv).len() && all_nets(bv)[k] == pn[i];
                                assert(bn[k] == pn[i]);
                            }
                        } else {
                            assert(bn[all_nets(bv).len() + i - pn.len()] == an[i]);
                        }
                    }
                    assert forall|m: Net| bn.contains(m) implies an.contains(m) by {
                        let k = choose|k: int| 0 <= k < bn.len() && bn[k] == m;
                        if k < all_nets(bv).len() {
                            assert(all_nets(bv)[k] == m);
                            assert(all_nets(bv).contains(m));
                            assert(pn.contains(m));
                            let t = choose|t: int| 0 <= t < pn.len() && pn[t] == m;
                            assert(an[t] == m);
                        } else {
                            assert(an[pn.len() + k - all_nets(bv).len()] == m);
                        }
                    }
                }
            },
            ClassifiedLine::NoIp(_) => {
                match flush_aggregated(&mut buffer, &mut output, opts) {
                    Ok(_) => {},
                    Err(e) => {
                        proof {
                            lemma_doc_err_persists(lv, *opts, it.index() + 1);
                        }
                        return Err(e);
                    },
                }
                let ghost o1 = lines_view(output@);
                output.push(line);
                proof {
                    let b = aggregate_flush(bv, *opts)->Ok_0;
                    assert(lines_view(output@) =~= ov + b + seq![line@]);
                    assert(lines_view(buffer@) =~= Seq::<LineView>::empty());
                    crate::blocks::lemma_lines_wf_push(o1, line@);
                    lemma_all_nets_concat(ov, b);
                    lemma_all_nets_push(o1, line@);
                    assert(lines_view(output@) =~= o1.push(line@));
                    assert(line@ is NoIp);
                    assert(all_nets(o1) + Seq::<Net>::empty() =~= all_nets(o1));
                    let pn = all_nets(pre);
                    let an = all_nets(lv.take(it.index() + 1));
                    let fo = all_nets(lines_view(output@));
                    assert(fo == all_nets(o1));
                    assert(an == pn);
                    assert forall|k: int| 0 <= k < fo.len() implies addresses_within(#[trigger] fo[k], an) by {
                        if k < all_nets(ov).len() {
                            assert(fo[k] == all_nets(ov)[k]);
                        } else {
                            assert(fo[k] == all_nets(o1)[k]);
                            assert(addresses_within(all_nets(o1)[k], all_nets(bv)));
                            lemma_within_mono(fo[k], all_nets(bv), an);
                        }
                    }
                    assert forall|i: int| 0 <= i < an.len() implies covered_by(#[trigger] an[i], fo)
                        || all_nets(lines_view(buffer@)).contains(an[i]) by {
                        assert(an[i] == pn[i]);
                        if all_nets(bv).contains(pn[i]) {
                            let k = choose|k: int| 0 <= k < all_nets(bv).len() && all_nets(bv)[k] == pn[i];
                            assert(covered_by(all_nets(bv)[k], all_nets(o1)));
                        } else {
                            assert(covered_by(pn[i], all_nets(ov)));
                            let j = choose|j: int| 0 <= j < all_nets(ov).len() && covers(#[trigger] all_nets(ov)[j], pn[i]);
                            assert(fo[j] == all_nets(ov)[j]);
                        }
                    }
                }
            },
        }
    }
    proof {
        assert(lv.take(lv.len() as int) =~= lv);
    }
    let ghost ov = lines_view(output@);
    let ghost bv = lines_view(buffer@);
    match flush_aggregated(&mut buffer, &mut output, opts) {
        Ok(_) => {
            proof {
                let b = aggregate_flush(bv, *opts)->Ok_0;
                lemma_all_nets_concat(ov, b);
                let fo = all_nets(lines_view(output@));
                let an = all_nets(lv);
                assert forall|k: int| 0 <= k < fo.len() implies addresses_within(#[trigger] fo[k], an) by {
                    if k < all_nets(ov).len() {
                        assert(fo[k] == all_nets(ov)[k]);
                    } else {
                        lemma_within_mono(fo[k], all_nets(bv), an);
                    }
                }
                assert forall|i: int| 0 <= i < an.len() implies covered_by(#[trigger] an[i], fo) by {
                    if all_nets(bv).contains(an[i]) {
                        let k = choose|k: int| 0 <= k < all_nets(bv).len() && all_nets(bv)[k] == an[i];
                        assert(covered_by(all_nets(bv)[k], fo));
                    } else {
                        assert(covered_by(an[i], all_nets(ov)));
                        let j = choose|j: int| 0 <= j < all_nets(ov).len() && covers(#[trigger] all_nets(ov)[j], an[i]);
                        assert(fo[j] == all_nets(ov)[j]);
                    }
                }
            }
            Ok(output)
        },
        Err(e) => Err(e),
    }
}


/// Every `HasIp` line of `lines` holds at most one IP.
pub open spec fn single_ip_lines(lines: Seq<LineView>) -> bool {
    forall|i: int|
        0 <= i < lines.len() ==> (#[trigger] lines[i] matches LineView::HasIp { spans, .. } ==> span_nets(
            spans,
        ).len() <= 1)
}

proof fn lemma_aggregate_state_single_ok(lines: Seq<LineView>, aggs: Seq<Net>, nets: Seq<Net>)
    requires
        single_ip_lines(lines),
    ensures
        aggregate_state(lines, aggs, nets) is Ok,
    decreases lines.len(),
{
    if lines.len() > 0 {
        let d = lines.drop_last();
        assert forall|i: int| 0 <= i < d.len() implies (#[trigger] d[i] matches LineView::HasIp { spans, .. } ==> span_nets(
            spans,
        ).len() <= 1) by {
            assert(d[i] == lines[i]);
        }
        lemma_aggregate_state_single_ok(d, aggs, nets);
        assert(lines.last() == lines[lines.len() - 1]);
    }
}

proof fn lemma_aggregate_doc_single_ok(lines: Seq<LineView>, opts: SortOptions)
    requires
        single_ip_lines(lines),
    ensures
        aggregate_doc_state(lines, opts) is Ok,
        single_ip_lines(aggregate_doc_state(lines, opts)->Ok_0.1),
    decreases lines.len(),
{
    if lines.len() > 0 {
        let d = lines.drop_last();
        assert forall|i: int| 0 <= i < d.len() implies (#[trigger] d[i] matches LineView::HasIp { spans, .. } ==> span_nets(
            spans,
        ).len() <= 1) by {
            assert(d[i] == lines[i]);
        }
        lemma_aggregate_doc_single_ok(d, opts);
        let (out, buf) = aggregate_doc_state(d, opts)->Ok_0;
        let l = lines.last();
        assert(l == lines[lines.len() - 1]);
        if l is HasIp {
            let b2 = buf.push(l);
            assert forall|i: int| 0 <= i < b2.len() implies (#[trigger] b2[i] matches LineView::HasIp { spans, .. } ==> span_nets(
                spans,
            ).len() <= 1) by {
                if i < buf.len() {
                    assert(b2[i] == buf[i]);
                }
            }
        } else {
            lemma_aggregate_state_single_ok(buf, ipnet_aggregate(all_nets(buf)), all_nets(buf));
        }
    }
}

/// Aggregation fails only on lines with several IPs: where every line holds
/// at most one IP, it succeeds, whatever `ipnet` aggregates.
pub proof fn lemma_aggregate_single_ip_succeeds(lines: Seq<LineView>, opts: SortOptions)
    requires
        single_ip_lines(lines),
    ensures
        aggregate_model(lines, opts) is Ok,
{
    lemma_aggregate_doc_single_ok(lines, opts);
    let buf = aggregate_doc_state(lines, opts)->Ok_0.1;
    lemma_aggregate_state_single_ok(buf, ipnet_aggregate(all_nets(buf)), all_nets(buf));
}

/// No IP of `block` is covered by an aggregate of `aggs` that merges
/// something: the aggregates only restate the block's networks.
pub open spec fn nothing_merges(block: Seq<LineView>, aggs: Seq<Net>) -> bool {
    forall|i: int|
        0 <= i < all_nets(block).len() ==> merging_cover(aggs, all_nets(block), #[trigger] all_nets(block)[i])
            is None
}

proof fn lemma_aggregate_state_unchanged(lines: Seq<LineView>, aggs: Seq<Net>, nets: Seq<Net>)
    requires
        forall|i: int| 0 <= i < all_nets(lines).len() ==> merging_cover(aggs, nets, #[trigger] all_nets(lines)[i]) is None,
    ensures
        aggregate_state(lines, aggs, nets) is Ok,
        aggregate_state(lines, aggs, nets)->Ok_0.0 == lines,
    decreases lines.len(),
{
    if lines.len() == 0 {
        assert(Seq::<LineView>::empty() =~= lines);
    } else {
        let d = lines.drop_last();
        let l = lines.last();
        let ln = match l {
            LineView::HasIp { spans, .. } => span_nets(spans),
            LineView::NoIp(_) => seq![],
        };
        assert(all_nets(lines) == all_nets(d) + ln);
        assert forall|i: int| 0 <= i < all_nets(d).len() implies merging_cover(aggs, nets, #[trigger] all_nets(d)[i]) is None by {
            assert(all_nets(lines)[i] == all_nets(d)[i]);
        }
        lemma_aggregate_state_unchanged(d, aggs, nets);
        if let LineView::HasIp { spans, .. } = l {
            let ips = span_nets(spans);
            assert forall|j: int| 0 <= j < ips.len() implies merging_cover(aggs, nets, #[trigger] ips[j]) is None by {
                assert(all_nets(lines)[all_nets(d).len() + j] == ips[j]);
            }
            if ips.len() > 1 {
                lemma_first_merging_none(ips, aggs, nets);
            }
            if ips.len() == 1 {
                assert(merging_cover(aggs, nets, ips[0]) is None);
            }
        }
        assert(d.push(l) =~= lines);
    }
}

proof fn lemma_first_merging_none(ips: Seq<Net>, aggs: Seq<Net>, nets: Seq<Net>)
    requires
        forall|j: int| 0 <= j < ips.len() ==> merging_cover(aggs, nets, #[trigger] ips[j]) is None,
    ensures
        first_merging(ips, aggs, nets) is None,
    decreases ips.len(),
{
    if ips.len() > 0 {
        let d = ips.drop_last();
        assert forall|j: int| 0 <= j < d.len() implies merging_cover(aggs, nets, #[trigger] d[j]) is None by {
            assert(d[j] == ips[j]);
        }
        lemma_first_merging_none(d, aggs, nets);
        assert(ips.last() == ips[ips.len() - 1]);
    }
}

/// A block whose aggregates merge nothing comes out of aggregation
/// unchanged: aggregating what is already aggregated changes nothing.
pub proof fn lemma_aggregate_block_unchanged(block: Seq<LineView>, aggs: Seq<Net>)
    requires
        nothing_merges(block, aggs),
    ensures
        aggregate_block_model(block, aggs) == Ok::<Seq<LineView>, (Seq<char>, Net)>(block),
{
    lemma_aggregate_state_unchanged(block, aggs, all_nets(block));
}

/// No IP of the line `l`, where it holds several IPs, is covered by an
/// aggregate of `aggs` that merges something in a block with networks
/// `nets`: the line takes no part in any merge.
pub open spec fn stays_out_of_merges(l: LineView, aggs: Seq<Net>, nets: Seq<Net>) -> bool {
    match l {
        LineView::HasIp { spans, .. } => span_nets(spans).len() > 1 ==> forall|j: int|
            0 <= j < span_nets(spans).len() ==> merging_cover(aggs, nets, #[trigger] span_nets(spans)[j])
                is None,
        LineView::NoIp(_) => true,
    }
}

/// The line `l` holds several IPs, its text is `text`, and one of its IPs
/// is covered by the merging aggregate `g`.
pub open spec fn blocks_merge(l: LineView, aggs: Seq<Net>, nets: Seq<Net>, text: Seq<char>, g: Net) -> bool {
    match l {
        LineView::HasIp { spans, .. } => {
            &&& span_nets(spans).len() > 1
            &&& text == spans_text(spans)
            &&& exists|j: int|
                0 <= j < span_nets(spans).len() && merging_cover(aggs, nets, #[trigger] span_nets(spans)[j])
                    == Some(g)
        },
        LineView::NoIp(_) => false,
    }
}

/// `first_merging` finds a merging aggregate exactly where some network has
/// one, and what it finds is the merging aggregate of one of them.
proof fn lemma_first_merging(ips: Seq<Net>, aggs: Seq<Net>, nets: Seq<Net>)
    ensures
        first_merging(ips, aggs, nets) is None <==> forall|j: int|
            0 <= j < ips.len() ==> merging_cover(aggs, nets, #[trigger] ips[j]) is None,
        first_merging(ips, aggs, nets) matches Some(g) ==> exists|j: int|
            0 <= j < ips.len() && merging_cover(aggs, nets, #[trigger] ips[j]) == Some(g),
    decreases ips.len(),
{
    if ips.len() > 0 {
        let d = ips.drop_last();
        lemma_first_merging(d, aggs, nets);
        let x = ips.last();
        assert(x == ips[ips.len() - 1]);
        assert forall|j: int| 0 <= j < d.len() implies d[j] == ips[j] by {}
        if first_merging(ips, aggs, nets) is None {
            assert forall|j: int| 0 <= j < ips.len() implies merging_cover(aggs, nets, #[trigger] ips[j]) is None by {
                if j < d.len() {
                    assert(merging_cover(aggs, nets, d[j]) is None);
                }
            }
        } else if first_merging(d, aggs, nets) is Some {
            let g = first_merging(d, aggs, nets)->Some_0;
            let j = choose|j: int| 0 <= j < d.len() && merging_cover(aggs, nets, #[trigger] d[j]) == Some(g);
            assert(merging_cover(aggs, nets, ips[j]) == Some(g));
            assert(merging_cover(aggs, nets, ips[j]) is Some);
        } else {
            assert(merging_cover(aggs, nets, ips[ips.len() - 1]) is Some);
        }
    }
}

proof fn lemma_aggregate_state_errors(lines: Seq<LineView>, aggs: Seq<Net>, nets: Seq<Net>)
    ensures
        aggregate_state(lines, aggs, nets) is Ok <==> forall|i: int|
            0 <= i < lines.len() ==> stays_out_of_merges(#[trigger] lines[i], aggs, nets),
        aggregate_state(lines, aggs, nets) matches Err((text, g)) ==> exists|i: int|
            0 <= i < lines.len() && blocks_merge(#[trigger] lines[i], aggs, nets, text, g),
    decreases lines.len(),
{
    if lines.len() > 0 {
        let d = lines.drop_last();
        lemma_aggregate_state_errors(d, aggs, nets);
        let l = lines.last();
        let n = lines.len() - 1;
        assert(l == lines[n]);
        assert forall|i: int| 0 <= i < d.len() implies d[i] == lines[i] by {}
        if let LineView::HasIp { spans, .. } = l {
            lemma_first_merging(span_nets(spans), aggs, nets);
        }
        match aggregate_state(d, aggs, nets) {
            Err((text, g)) => {
                let i = choose|i: int| 0 <= i < d.len() && blocks_merge(#[trigger] d[i], aggs, nets, text, g);
                assert(blocks_merge(lines[i], aggs, nets, text, g));
                if let LineView::HasIp { spans, .. } = lines[i] {
                    let j = choose|j: int|
                        0 <= j < span_nets(spans).len() && merging_cover(aggs, nets, #[trigger] span_nets(spans)[j])
                            == Some(g);
                    assert(merging_cover(aggs, nets, span_nets(spans)[j]) is Some);
                }
                assert(!stays_out_of_merges(lines[i], aggs, nets));
            },
            Ok(_) => {
                if forall|i: int| 0 <= i < lines.len() ==> stays_out_of_merges(#[trigger] lines[i], aggs, nets) {
                    assert(stays_out_of_merges(lines[n], aggs, nets));
                } else {
                    let i = choose|i: int| 0 <= i < lines.len() && !stays_out_of_merges(#[trigger] lines[i], aggs, nets);
                    if i < n {
                        assert(stays_out_of_merges(d[i], aggs, nets));
                    }
                    assert(i == n);
                }
                if let Err((text, g)) = aggregate_state(lines, aggs, nets) {
                    assert(blocks_merge(lines[n], aggs, nets, text, g));
                }
            },
        }
    }
}

/// Aggregation of a block fails exactly where a line with several IPs holds
/// an IP that a merging aggregate covers: where no such line is in the
/// block, it aggregates without error, whatever its other lines merge into;
/// and an error names such a line, by its text, and the aggregate that
/// covers one of its IPs.
pub proof fn lemma_aggregate_block_errors(block: Seq<LineView>, aggs: Seq<Net>)
    ensures
        aggregate_block_model(block, aggs) is Ok <==> forall|i: int|
            0 <= i < block.len() ==> stays_out_of_merges(#[trigger] block[i], aggs, all_nets(block)),
        aggregate_block_model(block, aggs) matches Err((text, g)) ==> exists|i: int|
            0 <= i < block.len() && blocks_merge(#[trigger] block[i], aggs, all_nets(block), text, g),
{
    lemma_aggregate_state_errors(block, aggs, all_nets(block));
}

/// A network covers itself.
proof fn lemma_covers_self(n: Net)
    ensures
        covers(n, n),
{
}

/// Where some network of `aggs` covers `n`, the first one does.
proof fn lemma_first_cover_some(aggs: Seq<Net>, n: Net)
    requires
        covered_by(n, aggs),
    ensures
        first_cover(aggs, n) matches Some(g) && covers(g, n) && aggs.contains(g),
    decreases aggs.len(),
{
    let d = aggs.drop_last();
    let j = choose|j: int| 0 <= j < aggs.len() && covers(#[trigger] aggs[j], n);
    if j < d.len() {
        assert(d[j] == aggs[j]);
        lemma_first_cover_some(d, n);
        let g = first_cover(d, n)->Some_0;
        let k = choose|k: int| 0 <= k < d.len() && d[k] == g;
        assert(aggs[k] == g);
    } else {
        match first_cover(d, n) {
            Some(g) => {
                lemma_first_cover_found(d, n);
                let k = choose|k: int| 0 <= k < d.len() && d[k] == g;
                assert(aggs[k] == g);
            },
            None => {
                assert(aggs[aggs.len() - 1] == aggs.last());
            },
        }
    }
}

/// A network that `first_cover` finds covers `n` and is one of `aggs`.
proof fn lemma_first_cover_found(aggs: Seq<Net>, n: Net)
    ensures
        first_cover(aggs, n) matches Some(g) ==> covers(g, n) && aggs.contains(g),
    decreases aggs.len(),
{
    if aggs.len() > 0 {
        let d = aggs.drop_last();
        lemma_first_cover_found(d, n);
        if let Some(g) = first_cover(d, n) {
            let k = choose|k: int| 0 <= k < d.len() && d[k] == g;
            assert(aggs[k] == g);
        } else {
            assert(aggs[aggs.len() - 1] == aggs.last());
        }
    }
}

/// Every network of spans rewritten to `g` is `g`, and there is one where
/// the spans had a network.
proof fn lemma_replace_ips_nets(spans: Seq<SpanView>, g: Net)
    ensures
        forall|k: int| 0 <= k < span_nets(replace_ips(spans, g)).len() ==> #[trigger] span_nets(replace_ips(spans, g))[k] == g,
        span_nets(spans).len() > 0 ==> span_nets(replace_ips(spans, g)).contains(g),
    decreases spans.len(),
{
    if spans.len() > 0 {
        let d = spans.drop_last();
        lemma_replace_ips_nets(d, g);
        let r = replace_ips(spans, g);
        assert(r.drop_last() =~= replace_ips(d, g));
        assert(r.last() == r[r.len() - 1]);
        let rd = span_nets(replace_ips(d, g));
        if spans.last() is Ip {
            assert(span_nets(r) == rd.push(g));
            assert(span_nets(r)[rd.len() as int] == g);
        } else {
            assert(span_nets(r) == rd);
            assert(span_nets(spans) == span_nets(d));
        }
    }
}

/// The networks of lines with one more line appended: those of the lines,
/// then those of the new line.
proof fn lemma_all_nets_push(lines: Seq<LineView>, l: LineView)
    ensures
        all_nets(lines.push(l)) == all_nets(lines) + match l {
            LineView::HasIp { spans, .. } => span_nets(spans),
            LineView::NoIp(_) => seq![],
        },
{
    assert(lines.push(l).drop_last() =~= lines);
}

/// What aggregation keeps in step: every merging aggregate placed is a
/// network of the output; every network of the lines read is covered by a
/// network of the output; every network of the output is a network of the
/// lines or one of the aggregates.
pub open spec fn aggregate_inv(lines: Seq<LineView>, aggs: Seq<Net>, out: Seq<LineView>, placed: Seq<Net>) -> bool {
    &&& forall|k: int| 0 <= k < placed.len() ==> all_nets(out).contains(#[trigger] placed[k])
    &&& forall|i: int| 0 <= i < all_nets(lines).len() ==> covered_by(#[trigger] all_nets(lines)[i], all_nets(out))
    &&& forall|k: int|
        0 <= k < all_nets(out).len() ==> all_nets(lines).contains(#[trigger] all_nets(out)[k]) || aggs.contains(
            all_nets(out)[k],
        )
}

proof fn lemma_aggregate_step_inv(
    p: Seq<LineView>,
    l: LineView,
    aggs: Seq<Net>,
    nets: Seq<Net>,
    out: Seq<LineView>,
    placed: Seq<Net>,
)
    requires
        aggregate_inv(p, aggs, out, placed),
        forall|i: int| 0 <= i < all_nets(p.push(l)).len() ==> covered_by(#[trigger] all_nets(p.push(l))[i], aggs),
    ensures
        aggregate_step(out, placed, l, aggs, nets) is Ok ==> aggregate_inv(
            p.push(l),
            aggs,
            aggregate_step(out, placed, l, aggs, nets)->Ok_0.0,
            aggregate_step(out, placed, l, aggs, nets)->Ok_0.1,
        ),
{
    let lines = p.push(l);
    lemma_all_nets_push(p, l);
    let ln = match l {
        LineView::HasIp { spans, .. } => span_nets(spans),
        LineView::NoIp(_) => seq![],
    };
    let an = all_nets(lines);
    assert(an == all_nets(p) + ln);
    assert forall|i: int| 0 <= i < all_nets(p).len() implies #[trigger] an[i] == all_nets(p)[i] by {}
    assert forall|i: int| 0 <= i < ln.len() implies #[trigger] an[all_nets(p).len() + i] == ln[i] by {}
    if aggregate_step(out, placed, l, aggs, nets) is Ok {
        let (o2, pl2) = aggregate_step(out, placed, l, aggs, nets)->Ok_0;
        // o2 is out, or out with one line pushed.
        let added: Seq<Net> = if o2.len() == out.len() { seq![] } else { all_nets(o2).skip(all_nets(out).len() as int) };
        assert(o2 == out || o2 == out.push(o2.last()));
        if o2 != out {
            lemma_all_nets_push(out, o2.last());
            assert(o2.drop_last() =~= out);
        }
        // Earlier networks of the output stay.
        assert forall|m: Net| all_nets(out).contains(m) implies all_nets(o2).contains(m) by {
            let k = choose|k: int| 0 <= k < all_nets(out).len() && all_nets(out)[k] == m;
            assert(all_nets(o2)[k] == m);
        }
        assert forall|k: int| 0 <= k < pl2.len() implies all_nets(o2).contains(#[trigger] pl2[k]) by {
            if k < placed.len() {
                assert(pl2[k] == placed[k]);
                assert(all_nets(out).contains(placed[k]));
            } else {
                let spans = l->HasIp_spans;
                let g = pl2[k];
                lemma_replace_ips_nets(spans, g);
                let rn = span_nets(replace_ips(spans, g));
                let q = choose|q: int| 0 <= q < rn.len() && rn[q] == g;
                assert(all_nets(o2)[all_nets(out).len() + q] == g);
            }
        }
        assert forall|i: int| 0 <= i < an.len() implies covered_by(#[trigger] an[i], all_nets(o2)) by {
            if i < all_nets(p).len() {
                assert(covered_by(all_nets(p)[i], all_nets(out)));
                let j = choose|j: int| 0 <= j < all_nets(out).len() && covers(#[trigger] all_nets(out)[j], all_nets(p)[i]);
                assert(all_nets(o2)[j] == all_nets(out)[j]);
            } else {
                let n = an[i];
                let spans = l->HasIp_spans;
                let q = i - all_nets(p).len();
                assert(ln[q] == n);
                assert(covered_by(n, aggs));
                lemma_covers_self(n);
                if span_nets(spans).len() == 1 {
                    assert(n == span_nets(spans)[0]);
                    match merging_cover(aggs, nets, n) {
                        Some(g) => {
                            lemma_first_cover_found(aggs, n);
                            assert(covers(g, n));
                            if placed.contains(g) {
                                let k = choose|k: int| 0 <= k < placed.len() && placed[k] == g;
                                assert(all_nets(out).contains(g));
                                let j = choose|j: int| 0 <= j < all_nets(out).len() && all_nets(out)[j] == g;
                                assert(all_nets(o2)[j] == g);
                            } else {
                                lemma_replace_ips_nets(spans, g);
                                let rn = span_nets(replace_ips(spans, g));
                                let w = choose|w: int| 0 <= w < rn.len() && rn[w] == g;
                                assert(all_nets(o2)[all_nets(out).len() + w] == g);
                            }
                        },
                        None => {
                            assert(all_nets(o2)[all_nets(out).len() + q] == n);
                        },
                    }
                } else {
                    assert(all_nets(o2)[all_nets(out).len() + q] == n);
                }
            }
        }
        assert forall|k: int| 0 <= k < all_nets(o2).len() implies an.contains(#[trigger] all_nets(o2)[k])
            || aggs.contains(all_nets(o2)[k]) by {
            let m = all_nets(o2)[k];
            if k < all_nets(out).len() {
                assert(all_nets(out)[k] == m);
                if all_nets(p).contains(m) {
                    let t = choose|t: int| 0 <= t < all_nets(p).len() && all_nets(p)[t] == m;
                    assert(an[t] == m);
                }
            } else {
                let spans = l->HasIp_spans;
                let q = k - all_nets(out).len();
                if span_nets(spans).len() == 1 && merging_cover(aggs, nets, span_nets(spans)[0]) is Some && o2.last()
                    != l {
                    let g = merging_cover(aggs, nets, span_nets(spans)[0])->Some_0;
                    lemma_first_cover_found(aggs, span_nets(spans)[0]);
                    lemma_replace_ips_nets(spans, g);
                    assert(span_nets(replace_ips(spans, g))[q] == g);
                } else {
                    assert(o2.last() == l);
                    assert(ln[q] == m);
                    assert(an[all_nets(p).len() + q] == m);
                }
            }
        }
    }
}

/// Aggregation keeps `aggregate_inv` over any number of lines.
proof fn lemma_aggregate_state_inv(lines: Seq<LineView>, aggs: Seq<Net>, nets: Seq<Net>)
    requires
        forall|i: int| 0 <= i < all_nets(lines).len() ==> covered_by(#[trigger] all_nets(lines)[i], aggs),
    ensures
        aggregate_state(lines, aggs, nets) is Ok ==> aggregate_inv(
            lines,
            aggs,
            aggregate_state(lines, aggs, nets)->Ok_0.0,
            aggregate_state(lines, aggs, nets)->Ok_0.1,
        ),
    decreases lines.len(),
{
    if lines.len() == 0 {
        assert(all_nets(Seq::<LineView>::empty()) =~= Seq::<Net>::empty());
    } else {
        let p = lines.drop_last();
        let l = lines.last();
        assert(p.push(l) =~= lines);
        lemma_all_nets_push(p, l);
        assert forall|i: int| 0 <= i < all_nets(p).len() implies covered_by(#[trigger] all_nets(p)[i], aggs) by {
            assert(all_nets(lines)[i] == all_nets(p)[i]);
        }
        lemma_aggregate_state_inv(p, aggs, nets);
        if aggregate_state(p, aggs, nets) is Ok {
            let (out, placed) = aggregate_state(p, aggs, nets)->Ok_0;
            lemma_aggregate_step_inv(p, l, aggs, nets, out, placed);
        }
    }
}

/// Aggregation loses and invents no address range: where every network of
/// a block is covered by one of its aggregates (as `ipnet` ensures of the
/// aggregates it returns), every network of the block is covered by a
/// network of the result, and every network of the result is a network of
/// the block or one of the aggregates.
pub proof fn lemma_aggregate_block_covers(block: Seq<LineView>, aggs: Seq<Net>)
    requires
        forall|i: int| 0 <= i < all_nets(block).len() ==> covered_by(#[trigger] all_nets(block)[i], aggs),
    ensures
        aggregate_block_model(block, aggs) matches Ok(out) ==> {
            &&& forall|i: int| 0 <= i < all_nets(block).len() ==> covered_by(#[trigger] all_nets(block)[i], all_nets(out))
            &&& forall|k: int|
                0 <= k < all_nets(out).len() ==> all_nets(block).contains(#[trigger] all_nets(out)[k])
                    || aggs.contains(all_nets(out)[k])
        },
{
    lemma_aggregate_state_inv(block, aggs, all_nets(block));
}

/// The networks of a line's `Ip` spans.
pub open spec fn line_nets(l: LineView) -> Seq<Net> {
    match l {
        LineView::HasIp { spans, .. } => span_nets(spans),
        LineView::NoIp(_) => seq![],
    }
}

proof fn lemma_all_nets_concat(a: Seq<LineView>, b: Seq<LineView>)
    ensures
        all_nets(a + b) == all_nets(a) + all_nets(b),
    decreases b.len(),
{
    if b.len() == 0 {
        assert(a + b =~= a);
        assert(all_nets(a) + all_nets(b) =~= all_nets(a));
    } else {
        lemma_all_nets_concat(a, b.drop_last());
        assert((a + b).drop_last() =~= a + b.drop_last());
        assert((a + b).last() == b.last());
        assert(all_nets(a + b) =~= all_nets(a) + all_nets(b));
    }
}

proof fn lemma_all_nets_member(lines: Seq<LineView>, m: Net)
    ensures
        all_nets(lines).contains(m) <==> exists|i: int| 0 <= i < lines.len() && line_nets(#[trigger] lines[i]).contains(m),
    decreases lines.len(),
{
    if lines.len() > 0 {
        let d = lines.drop_last();
        lemma_all_nets_member(d, m);
        let ln = line_nets(lines.last());
        assert(all_nets(lines) == all_nets(d) + ln);
        if all_nets(lines).contains(m) {
            let k = choose|k: int| 0 <= k < all_nets(lines).len() && all_nets(lines)[k] == m;
            if k < all_nets(d).len() {
                assert(all_nets(d)[k] == m);
                let i = choose|i: int| 0 <= i < d.len() && line_nets(#[trigger] d[i]).contains(m);
                assert(lines[i] == d[i]);
            } else {
                assert(ln[k - all_nets(d).len()] == m);
                assert(lines[lines.len() - 1] == lines.last());
            }
        }
        if exists|i: int| 0 <= i < lines.len() && line_nets(#[trigger] lines[i]).contains(m) {
            let i = choose|i: int| 0 <= i < lines.len() && line_nets(#[trigger] lines[i]).contains(m);
            if i < d.len() {
                assert(d[i] == lines[i]);
                let k = choose|k: int| 0 <= k < all_nets(d).len() && all_nets(d)[k] == m;
                assert(all_nets(lines)[k] == m);
            } else {
                let k = choose|k: int| 0 <= k < ln.len() && ln[k] == m;
                assert(all_nets(lines)[all_nets(d).len() + k] == m);
            }
        }
    }
}

/// Sorting a buffer keeps every network of its lines.
proof fn lemma_sort_buffer_nets(b: Seq<LineView>, opts: SortOptions)
    ensures
        forall|m: Net| all_nets(b).contains(m) ==> all_nets(sort_buffer(b, opts)).contains(m),
{
    broadcast use vstd::seq_lib::group_to_multiset_ensures;

    let k = crate::blocks::keyed_lines(b);
    let sk = crate::stable::sorted_by_key(k, opts);
    crate::stable::lemma_sorted_by_key_permutes(k, opts);
    crate::stable::lemma_permutation_map(sk, k, |p: (Net, LineView)| p.1);
    assert(k.map_values(|p: (Net, LineView)| p.1) =~= b);
    let sb = sort_buffer(b, opts);
    assert forall|m: Net| all_nets(b).contains(m) implies all_nets(sb).contains(m) by {
        lemma_all_nets_member(b, m);
        lemma_all_nets_member(sb, m);
        let i = choose|i: int| 0 <= i < b.len() && line_nets(#[trigger] b[i]).contains(m);
        assert(b.contains(b[i]));
        assert(sb.to_multiset().count(b[i]) > 0);
        assert(sb.contains(b[i]));
        let j = choose|j: int| 0 <= j < sb.len() && sb[j] == b[i];
        assert(line_nets(sb[j]).contains(m));
    }
}

/// Every address of `m` lies in some network of `s`.
pub open spec fn addresses_within(m: Net, s: Seq<Net>) -> bool {
    forall|a: u128| covers(m, #[trigger] host_in(m, a)) ==> covered_by(host_in(m, a), s)
}

proof fn lemma_within_mono(m: Net, s: Seq<Net>, t: Seq<Net>)
    requires
        addresses_within(m, s),
        forall|x: Net| s.contains(x) ==> t.contains(x),
    ensures
        addresses_within(m, t),
{
    assert forall|a: u128| covers(m, #[trigger] host_in(m, a)) implies covered_by(host_in(m, a), t) by {
        let h = host_in(m, a);
        let j = choose|j: int| 0 <= j < s.len() && covers(#[trigger] s[j], h);
        assert(s.contains(s[j]));
        let k = choose|k: int| 0 <= k < t.len() && t[k] == s[j];
        assert(covers(t[k], h));
    }
}

proof fn lemma_within_member(m: Net, s: Seq<Net>)
    requires
        s.contains(m),
    ensures
        addresses_within(m, s),
{
    let k = choose|k: int| 0 <= k < s.len() && s[k] == m;
    assert forall|a: u128| covers(m, #[trigger] host_in(m, a)) implies covered_by(host_in(m, a), s) by {
        assert(covers(s[k], host_in(m, a)));
    }
}

/// Sorting a buffer keeps only networks of its lines.
proof fn lemma_sort_buffer_nets_back(b: Seq<LineView>, opts: SortOptions)
    ensures
        forall|m: Net| all_nets(sort_buffer(b, opts)).contains(m) ==> all_nets(b).contains(m),
{
    broadcast use vstd::seq_lib::group_to_multiset_ensures;

    let k = crate::blocks::keyed_lines(b);
    let sk = crate::stable::sorted_by_key(k, opts);
    crate::stable::lemma_sorted_by_key_permutes(k, opts);
    crate::stable::lemma_permutation_map(sk, k, |p: (Net, LineView)| p.1);
    assert(k.map_values(|p: (Net, LineView)| p.1) =~= b);
    let sb = sort_buffer(b, opts);
    assert forall|m: Net| all_nets(sb).contains(m) implies all_nets(b).contains(m) by {
        lemma_all_nets_member(b, m);
        lemma_all_nets_member(sb, m);
        let i = choose|i: int| 0 <= i < sb.len() && line_nets(#[trigger] sb[i]).contains(m);
        assert(sb.contains(sb[i]));
        assert(b.to_multiset().count(sb[i]) > 0);
        assert(b.contains(sb[i]));
        let j = choose|j: int| 0 <= j < b.len() && b[j] == sb[i];
        assert(line_nets(b[j]).contains(m));
    }
}

} // verus!
