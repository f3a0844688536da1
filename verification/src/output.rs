//! Output rendering: classified lines back into strings, with the IPs of a
//! line sorted, decoration preserved, and the `normalize` and ips-only modes.

use crate::classify::{
    classify_model, ip_run, lemma_runs_of, lemma_spans_from_origin, merge_text, runs_of, runs_text,
    span_nets, spans_from, spans_of, spans_text, spans_view, spans_wf, valid_runs, ClassifiedLine,
    LineView, Span, SpanView,
};
use crate::parse::{
    cidr_char, ipnet_text, ipnet_to_string, ipnet_writes_back, token_model, Net, ParsedToken, TokenView,
};
use crate::sort::{before, SortOptions};
use crate::stable::{
    is_sorted, is_stable_sort_of, lemma_sorted_by_key_sorts_stably, lemma_sorted_by_key_is_sorted, lemma_sorted_by_key_len, lemma_sorted_by_key_map,
    lemma_sorted_by_key_of_sorted, lemma_sorted_by_key_permutes, map_payload, sorted_by_key, stable_sort,
};
use vstd::prelude::*;

verus! {

/// Controls whether and how non-IP content is stripped from output.
#[derive(Clone, Copy, Debug, PartialEq, Eq, Structural)]
pub enum IpsOnlyMode {
    /// Preserve all content, mirror the input format.
    Off,
    /// Discard all non-IP content and non-IP lines; one IP per output line.
    Flat,
    /// Discard decoration within lines but keep `NoIp` lines as separators.
    WithStructure,
}

impl Default for IpsOnlyMode {
    fn default() -> (r: Self)
        ensures
            r == IpsOnlyMode::Off,
    {
        IpsOnlyMode::Off
    }
}

/// Runtime options controlling how lines are rendered.
#[derive(Clone, Copy, Debug, PartialEq, Eq, Structural)]
pub struct OutputOptions {
    /// Emit canonical network strings instead of original tokens.
    pub normalize: bool,
    /// The IP-extraction mode.
    pub ips_only: IpsOnlyMode,
}

impl Default for OutputOptions {
    fn default() -> (r: Self)
        ensures
            !r.normalize,
            r.ips_only == IpsOnlyMode::Off,
    {
        OutputOptions { normalize: false, ips_only: IpsOnlyMode::Off }
    }
}

/// The text emitted for a token: its canonical network text under
/// `normalize`, else its original text.
pub open spec fn token_text(t: TokenView, opts: OutputOptions) -> Seq<char> {
    if opts.normalize {
        match t.network() {
            Some(n) => ipnet_text(n),
            None => t.original(),
        }
    } else {
        t.original()
    }
}

/// Returns the string to emit for a single token given output options.
pub fn render_token(token: &ParsedToken, opts: &OutputOptions) -> (r: String)
    requires
        token@.wf(),
    ensures
        r@ == token_text(token@, *opts),
{
    if opts.normalize {
        match token.network() {
            Some(net) => ipnet_to_string(net),
            None => token.original().to_owned(),
        }
    } else {
        token.original().to_owned()
    }
}

/// The `Ip` tokens of `spans` in order, each keyed by its network.
pub open spec fn keyed_tokens(spans: Seq<SpanView>) -> Seq<(Net, TokenView)>
    decreases spans.len(),
{
    if spans.len() == 0 {
        seq![]
    } else {
        let p = keyed_tokens(spans.drop_last());
        match spans.last() {
            SpanView::Ip(t) => p.push((t.network().unwrap(), t)),
            SpanView::NonIp(_) => p,
        }
    }
}

/// The spans' texts with the `Ip` slots filled, in order, by the texts of
/// `toks`; an `Ip` slot left without a token writes nothing.
pub open spec fn fill(spans: Seq<SpanView>, toks: Seq<(Net, TokenView)>, opts: OutputOptions) -> Seq<
    char,
>
    decreases spans.len(),
{
    if spans.len() == 0 {
        seq![]
    } else {
        match spans[0] {
            SpanView::Ip(_) => if toks.len() > 0 {
                token_text(toks[0].1, opts) + fill(spans.drop_first(), toks.drop_first(), opts)
            } else {
                fill(spans.drop_first(), toks, opts)
            },
            SpanView::NonIp(s) => s + fill(spans.drop_first(), toks, opts),
        }
    }
}

/// The output lines for a classified line.
pub open spec fn render_model(line: LineView, out: OutputOptions, sort: SortOptions) -> Seq<
    Seq<char>,
> {
    match line {
        LineView::NoIp(s) => if out.ips_only == IpsOnlyMode::Flat {
            seq![]
        } else {
            seq![s]
        },
        LineView::HasIp { spans, .. } => {
            let sorted = sorted_by_key(keyed_tokens(spans), sort);
            if out.ips_only == IpsOnlyMode::Off {
                seq![fill(spans, sorted, out)]
            } else {
                sorted.map_values(|p: (Net, TokenView)| token_text(p.1, out))
            }
        },
    }
}

proof fn lemma_fill_step(
    spans: Seq<SpanView>,
    toks: Seq<(Net, TokenView)>,
    opts: OutputOptions,
    i: int,
    k: int,
)
    requires
        0 <= i < spans.len(),
        0 <= k <= toks.len(),
    ensures
        fill(spans.skip(i), toks.skip(k), opts) == match spans[i] {
            SpanView::Ip(_) => if k < toks.len() {
                token_text(toks[k].1, opts) + fill(spans.skip(i + 1), toks.skip(k + 1), opts)
            } else {
                fill(spans.skip(i + 1), toks.skip(k), opts)
            },
            SpanView::NonIp(s) => s + fill(spans.skip(i + 1), toks.skip(k), opts),
        },
{
    assert(spans.skip(i).drop_first() =~= spans.skip(i + 1));
    assert(spans.skip(i)[0] == spans[i]);
    if k < toks.len() {
        assert(toks.skip(k).drop_first() =~= toks.skip(k + 1));
        assert(toks.skip(k)[0] == toks[k]);
    }
}

/// Renders a classified line into zero or more output strings.
///
/// A `NoIp` line gives itself, except in flat ips-only mode where it gives
/// nothing. A `HasIp` line has its IPs stably sorted; in the default mode it
/// gives one string with the sorted IPs in the original IP positions and the
/// decoration kept; in the ips-only modes it gives one string per IP.
pub fn render_line(line: &ClassifiedLine, out_opts: &OutputOptions, sort_opts: &SortOptions) -> (r:
    Vec<String>)
    requires
        line@.wf(),
    ensures
        r@.map_values(|s: String| s@) == render_model(line@, *out_opts, *sort_opts),
{
    match line {
        ClassifiedLine::NoIp(s) => {
            let mut r: Vec<String> = Vec::new();
            match out_opts.ips_only {
                IpsOnlyMode::Flat => {},
                _ => {
                    r.push(s.clone());
                },
            }
            assert(r@.map_values(|s: String| s@) =~= render_model(line@, *out_opts, *sort_opts));
            r
        },
        ClassifiedLine::HasIp { spans, .. } => {
            let ghost sv = spans_view(spans@);
            // collect the IP tokens, keyed by network
            let mut keyed: Vec<(Net, &ParsedToken)> = Vec::new();
            let n = spans.len();
            let mut i: usize = 0;
            while i < n
                invariant
                    i <= n == spans@.len() == sv.len(),
                    sv == spans_view(spans@),
                    spans_wf(sv),
                    map_payload(keyed@, |t: &ParsedToken| t@) == keyed_tokens(sv.take(i as int)),
                    forall|k: int| 0 <= k < keyed@.len() ==> (#[trigger] keyed@[k]).0.wf() && keyed@[k].1@.wf(),
                decreases n - i,
            {
                proof {
                    assert(sv.take(i + 1).drop_last() =~= sv.take(i as int));
                    assert(sv.take(i + 1).last() == sv[i as int]);
                    assert(sv[i as int].wf());
                }
                match &spans[i] {
                    Span::Ip(t) => {
                        let net = t.network().unwrap();
                        let ghost before = keyed@;
                        keyed.push((net, t));
                        assert(map_payload(keyed@, |t: &ParsedToken| t@) =~= map_payload(before, |t: &ParsedToken| t@).push((net, t@)));
                    },
                    Span::NonIp(_) => {},
                }
                i = i + 1;
            }
            proof {
                assert(sv.take(n as int) =~= sv);
            }
            let ghost keyed_before = keyed@;
            let sorted = stable_sort(keyed, sort_opts);
            let ghost toks = sorted_by_key(keyed_tokens(sv), *sort_opts);
            proof {
                lemma_sorted_by_key_map(keyed_before, |t: &ParsedToken| t@, *sort_opts);
                crate::stable::lemma_sorted_by_key_len(keyed_before, *sort_opts);
                crate::stable::lemma_sorted_by_key_permutes(keyed_before, *sort_opts);
            }
            assert(map_payload(sorted@, |t: &ParsedToken| t@) == toks);
            assert forall|k: int| 0 <= k < sorted@.len() implies (#[trigger] sorted@[k]).1@.wf() by {
                broadcast use vstd::seq_lib::group_to_multiset_ensures;
                assert(sorted@.contains(sorted@[k]));
                assert(keyed_before.to_multiset().count(sorted@[k]) > 0);
                assert(keyed_before.contains(sorted@[k]));
            }
            let m = sorted.len();
            let mut r: Vec<String> = Vec::new();
            match out_opts.ips_only {
                IpsOnlyMode::Off => {
                    let mut text = String::new();
                    let mut k: usize = 0;
                    let mut i: usize = 0;
                    assert(sv.skip(0) =~= sv);
                    assert(toks.skip(0) =~= toks);
                    while i < n
                        invariant
                            i <= n == spans@.len() == sv.len(),
                            k <= m == sorted@.len() == toks.len(),
                            sv == spans_view(spans@),
                            map_payload(sorted@, |t: &ParsedToken| t@) == toks,
                            forall|j: int| 0 <= j < sorted@.len() ==> (#[trigger] sorted@[j]).1@.wf(),
                            text@ + fill(sv.skip(i as int), toks.skip(k as int), *out_opts) == fill(
                                sv,
                                toks,
                                *out_opts,
                            ),
                        decreases n - i,
                    {
                        proof {
                            lemma_fill_step(sv, toks, *out_opts, i as int, k as int);
                            if k < m {
                                assert(toks[k as int] == (sorted@[k as int].0, sorted@[k as int].1@));
                            }
                        }
                        match &spans[i] {
                            Span::Ip(_) => {
                                if k < m {
                                    let t = render_token(sorted[k].1, out_opts);
                                    text.append(t.as_str());
                                    k = k + 1;
                                }
                            },
                            Span::NonIp(s) => {
                                text.append(s.as_str());
                            },
                        }
                        i = i + 1;
                    }
                    proof {
                        assert(fill(sv.skip(n as int), toks.skip(k as int), *out_opts) == Seq::<char>::empty());
                        assert(text@ =~= fill(sv, toks, *out_opts));
                    }
                    r.push(text);
                },
                _ => {
                    let mut k: usize = 0;
                    while k < m
                        invariant
                            k <= m == sorted@.len() == toks.len(),
                            map_payload(sorted@, |t: &ParsedToken| t@) == toks,
                            forall|j: int| 0 <= j < sorted@.len() ==> (#[trigger] sorted@[j]).1@.wf(),
                            r@.map_values(|s: String| s@) == toks.take(k as int).map_values(
                                |p: (Net, TokenView)| token_text(p.1, *out_opts),
                            ),
                        decreases m - k,
                    {
                        let t = render_token(sorted[k].1, out_opts);
                        let ghost before = r@.map_values(|s: String| s@);
                        r.push(t);
                        proof {
                            assert(toks[k as int] == (sorted@[k as int].0, sorted@[k as int].1@));
                            assert(r@.map_values(|s: String| s@) =~= before.push(t@));
                            assert(toks.take(k + 1).map_values(
                                |p: (Net, TokenView)| token_text(p.1, *out_opts),
                            ) =~= toks.take(k as int).map_values(
                                |p: (Net, TokenView)| token_text(p.1, *out_opts),
                            ).push(token_text(toks[k as int].1, *out_opts)));
                        }
                        k = k + 1;
                    }
                    assert(toks.take(m as int) =~= toks);
                },
            }
            assert(r@.map_values(|s: String| s@) =~= render_model(line@, *out_opts, *sort_opts));
            r
        },
    }
}

/// The number of `Ip` spans of `spans`.
pub open spec fn ip_slots(spans: Seq<SpanView>) -> nat
    decreases spans.len(),
{
    if spans.len() == 0 {
        0
    } else {
        (if spans[0] is Ip {
            1nat
        } else {
            0nat
        }) + ip_slots(spans.drop_first())
    }
}

proof fn lemma_ip_slots_push(a: Seq<SpanView>, x: SpanView)
    ensures
        ip_slots(a.push(x)) == ip_slots(a) + if x is Ip {
            1nat
        } else {
            0nat
        },
    decreases a.len(),
{
    if a.len() > 0 {
        assert(a.push(x).drop_first() =~= a.drop_first().push(x));
        assert(a.push(x)[0] == a[0]);
        lemma_ip_slots_push(a.drop_first(), x);
    } else {
        assert(a.push(x).drop_first() =~= Seq::<SpanView>::empty());
        assert(a.push(x)[0] == x);
        assert(ip_slots(a.push(x).drop_first()) == 0);
    }
}

proof fn lemma_keyed_tokens_len(a: Seq<SpanView>)
    ensures
        keyed_tokens(a).len() == ip_slots(a),
    decreases a.len(),
{
    if a.len() > 0 {
        lemma_keyed_tokens_len(a.drop_last());
        lemma_ip_slots_push(a.drop_last(), a.last());
        assert(a.drop_last().push(a.last()) =~= a);
    }
}

proof fn lemma_fill_concat(
    a: Seq<SpanView>,
    b: Seq<SpanView>,
    t1: Seq<(Net, TokenView)>,
    t2: Seq<(Net, TokenView)>,
    opts: OutputOptions,
)
    requires
        t1.len() == ip_slots(a),
    ensures
        fill(a + b, t1 + t2, opts) == fill(a, t1, opts) + fill(b, t2, opts),
    decreases a.len(),
{
    if a.len() == 0 {
        assert(a + b =~= b);
        assert(t1 + t2 =~= t2);
    } else {
        assert((a + b).drop_first() =~= a.drop_first() + b);
        assert((a + b)[0] == a[0]);
        if a[0] is Ip {
            assert((t1 + t2).drop_first() =~= t1.drop_first() + t2);
            assert((t1 + t2)[0] == t1[0]);
            lemma_fill_concat(a.drop_first(), b, t1.drop_first(), t2, opts);
        } else {
            lemma_fill_concat(a.drop_first(), b, t1, t2, opts);
        }
    }
}

proof fn lemma_fill_own_tokens(spans: Seq<SpanView>, opts: OutputOptions)
    requires
        !opts.normalize,
    ensures
        fill(spans, keyed_tokens(spans), opts) == spans_text(spans),
    decreases spans.len(),
{
    if spans.len() > 0 {
        let a = spans.drop_last();
        let x = spans.last();
        lemma_fill_own_tokens(a, opts);
        lemma_keyed_tokens_len(a);
        assert(a + seq![x] =~= spans);
        let t2 = keyed_tokens(spans).skip(keyed_tokens(a).len() as int);
        assert(keyed_tokens(a) + t2 =~= keyed_tokens(spans));
        lemma_fill_concat(a, seq![x], keyed_tokens(a), t2, opts);
        assert(seq![x].drop_first() =~= Seq::<SpanView>::empty());
        assert(spans.drop_last() == a);
        assert(fill(Seq::<SpanView>::empty(), t2.skip(0), opts) == Seq::<char>::empty());
        match x {
            SpanView::Ip(t) => {
                assert(t2 =~= seq![(t.network().unwrap(), t)]);
                assert(t2.drop_first() =~= Seq::<(Net, TokenView)>::empty());
                assert(fill(Seq::<SpanView>::empty(), t2.drop_first(), opts) == Seq::<char>::empty());
                assert(fill(seq![x], t2, opts) =~= t.original());
            },
            SpanView::NonIp(u) => {
                assert(t2 =~= Seq::<(Net, TokenView)>::empty());
                assert(fill(Seq::<SpanView>::empty(), t2, opts) == Seq::<char>::empty());
                assert(fill(seq![x], t2, opts) =~= u);
            },
        }
    }
}

/// The shape of the output: a `NoIp` line gives itself, or nothing in flat
/// ips-only mode; a `HasIp` line gives one line in the default mode and one
/// line per IP in the ips-only modes.
pub proof fn lemma_render_shape(line: LineView, out: OutputOptions, sort: SortOptions)
    ensures
        line matches LineView::NoIp(s) ==> if out.ips_only == IpsOnlyMode::Flat {
            render_model(line, out, sort).len() == 0
        } else {
            render_model(line, out, sort) == seq![s]
        },
        line matches LineView::HasIp { spans, .. } ==> if out.ips_only == IpsOnlyMode::Off {
            render_model(line, out, sort).len() == 1
        } else {
            render_model(line, out, sort).len() == ip_slots(spans)
        },
{
    if let LineView::HasIp { spans, .. } = line {
        lemma_sorted_by_key_len(keyed_tokens(spans), sort);
        lemma_keyed_tokens_len(spans);
    }
}

/// A line's IPs come out in the run's order, `reverse` and `ipv6_first`
/// included: what is rendered for a `HasIp` line is its IP tokens stably
/// sorted under `sort` (no token whose network sorts strictly before
/// another's comes after it, equal networks in document order), filled back
/// into the line's IP positions in the default mode, and one text per token
/// in the ips-only modes.
pub proof fn lemma_render_sorts_ips(line: LineView, out: OutputOptions, sort: SortOptions)
    ensures
        line matches LineView::HasIp { spans, .. } ==> exists|toks: Seq<(Net, TokenView)>|
            #[trigger] is_stable_sort_of(toks, keyed_tokens(spans), sort) && render_model(line, out, sort) == if out.ips_only
                == IpsOnlyMode::Off {
                seq![fill(spans, toks, out)]
            } else {
                toks.map_values(|p: (Net, TokenView)| token_text(p.1, out))
            },
{
    if let LineView::HasIp { spans, .. } = line {
        let toks = sorted_by_key(keyed_tokens(spans), sort);
        lemma_sorted_by_key_sorts_stably(keyed_tokens(spans), sort);
        assert(is_stable_sort_of(toks, keyed_tokens(spans), sort));
    }
}

/// A line whose IPs are already in order renders, in the default mode
/// without normalization, exactly as it was read.
pub proof fn lemma_render_sorted_line_unchanged(line: LineView, out: OutputOptions, sort: SortOptions)
    requires
        line matches LineView::HasIp { spans, .. } && is_sorted(keyed_tokens(spans), sort),
        out.ips_only == IpsOnlyMode::Off,
        !out.normalize,
    ensures
        render_model(line, out, sort) == seq![line.text()],
{
    if let LineView::HasIp { spans, .. } = line {
        lemma_sorted_by_key_of_sorted(keyed_tokens(spans), sort);
        lemma_fill_own_tokens(spans, out);
    }
}

/// A keyed token whose written text reads back: an IP token keyed by its
/// network; the text written for it under `out` is a non-empty run of CIDR
/// characters, which parses to an IP token with the same network, for which
/// the same text is written.
pub open spec fn round_trip_token(p: (Net, TokenView), out: OutputOptions) -> bool {
    &&& p.1.is_ip()
    &&& p.0 == p.1.network().unwrap()
    &&& token_text(p.1, out).len() > 0
    &&& forall|j: int| 0 <= j < token_text(p.1, out).len() ==> cidr_char(#[trigger] token_text(p.1, out)[j])
    &&& token_model(token_text(p.1, out)).is_ip()
    &&& token_model(token_text(p.1, out)).network() == p.1.network()
    &&& token_text(token_model(token_text(p.1, out)), out) == token_text(p.1, out)
}

/// The number of runs of `runs` that are CIDR runs parsing as an IP.
pub open spec fn ip_run_count(runs: Seq<(bool, Seq<char>)>) -> nat
    decreases runs.len(),
{
    if runs.len() == 0 {
        0
    } else {
        ip_run_count(runs.drop_last()) + if ip_run(runs.last()) {
            1nat
        } else {
            0nat
        }
    }
}

/// `runs` with the texts of its IP runs replaced, in order, by the texts
/// written under `out` for the tokens `toks`.
pub open spec fn swap_runs(runs: Seq<(bool, Seq<char>)>, toks: Seq<(Net, TokenView)>, out: OutputOptions) -> Seq<
    (bool, Seq<char>),
>
    decreases runs.len(),
{
    if runs.len() == 0 {
        seq![]
    } else if ip_run(runs.last()) && toks.len() > 0 {
        swap_runs(runs.drop_last(), toks.drop_last(), out).push((true, token_text(toks.last().1, out)))
    } else {
        swap_runs(runs.drop_last(), toks, out).push(runs.last())
    }
}

/// `spans` with its `Ip` spans replaced, in order, by the tokens that the
/// texts written under `out` for `toks` parse to.
pub open spec fn swap_spans(spans: Seq<SpanView>, toks: Seq<(Net, TokenView)>, out: OutputOptions) -> Seq<SpanView>
    decreases spans.len(),
{
    if spans.len() == 0 {
        seq![]
    } else if spans.last() is Ip && toks.len() > 0 {
        swap_spans(spans.drop_last(), toks.drop_last(), out).push(
            SpanView::Ip(token_model(token_text(toks.last().1, out))),
        )
    } else {
        swap_spans(spans.drop_last(), toks, out).push(spans.last())
    }
}

/// `toks` with each token replaced by the token its written text parses to.
pub open spec fn retoken(toks: Seq<(Net, TokenView)>, out: OutputOptions) -> Seq<(Net, TokenView)> {
    toks.map_values(|p: (Net, TokenView)| (p.0, token_model(token_text(p.1, out))))
}

proof fn lemma_swap_spans_shape(spans: Seq<SpanView>, toks: Seq<(Net, TokenView)>, out: OutputOptions)
    ensures
        swap_spans(spans, toks, out).len() == spans.len(),
        forall|i: int|
            0 <= i < spans.len() ==> ((#[trigger] swap_spans(spans, toks, out)[i]) is Ip) == (spans[i] is Ip),
        forall|i: int|
            0 <= i < spans.len() && (#[trigger] spans[i]) is NonIp ==> swap_spans(spans, toks, out)[i] == spans[i],
    decreases spans.len(),
{
    if spans.len() > 0 {
        let d = spans.drop_last();
        if spans.last() is Ip && toks.len() > 0 {
            lemma_swap_spans_shape(d, toks.drop_last(), out);
        } else {
            lemma_swap_spans_shape(d, toks, out);
        }
        let r = swap_spans(spans, toks, out);
        assert forall|i: int| 0 <= i < spans.len() implies ((#[trigger] r[i]) is Ip) == (spans[i] is Ip) by {
            if i < d.len() {
                assert(spans[i] == d[i]);
            }
        }
        assert forall|i: int| 0 <= i < spans.len() && (#[trigger] spans[i]) is NonIp implies r[i] == spans[i] by {
            if i < d.len() {
                assert(spans[i] == d[i]);
            }
        }
    }
}

proof fn lemma_swap_merge(sp: Seq<SpanView>, toks: Seq<(Net, TokenView)>, out: OutputOptions, t: Seq<char>)
    ensures
        swap_spans(merge_text(sp, t), toks, out) == merge_text(swap_spans(sp, toks, out), t),
{
    lemma_swap_spans_shape(sp, toks, out);
    let m = merge_text(sp, t);
    assert(m.last() is NonIp);
    if sp.len() > 0 && sp.last() is NonIp {
        let q = sp.drop_last();
        assert(m.drop_last() =~= q);
        assert(swap_spans(sp, toks, out) == swap_spans(q, toks, out).push(sp.last()));
        assert(swap_spans(sp, toks, out).drop_last() =~= swap_spans(q, toks, out));
        assert(swap_spans(sp, toks, out).last() == sp.last());
    } else {
        assert(m.drop_last() =~= sp);
        if sp.len() > 0 {
            assert(swap_spans(sp, toks, out)[sp.len() - 1] is Ip);
        }
    }
}

proof fn lemma_merge_keyed_tokens(sp: Seq<SpanView>, t: Seq<char>)
    ensures
        keyed_tokens(merge_text(sp, t)) == keyed_tokens(sp),
{
    let m = merge_text(sp, t);
    if sp.len() > 0 && sp.last() is NonIp {
        assert(m.drop_last() =~= sp.drop_last());
    } else {
        assert(m.drop_last() =~= sp);
    }
}

/// Building spans from runs whose IP texts are swapped for the texts written
/// for `toks` gives the spans of the runs with their tokens swapped.
proof fn lemma_spans_from_swap(runs: Seq<(bool, Seq<char>)>, toks: Seq<(Net, TokenView)>, out: OutputOptions)
    requires
        toks.len() == ip_run_count(runs),
        forall|k: int| 0 <= k < toks.len() ==> round_trip_token(#[trigger] toks[k], out),
    ensures
        spans_from(swap_runs(runs, toks, out)) == swap_spans(spans_from(runs), toks, out),
    decreases runs.len(),
{
    if runs.len() > 0 {
        let d = runs.drop_last();
        let last = runs.last();
        let sp = spans_from(d);
        if ip_run(last) {
            let t2 = toks.drop_last();
            assert forall|k: int| 0 <= k < t2.len() implies round_trip_token(#[trigger] t2[k], out) by {
                assert(t2[k] == toks[k]);
            }
            lemma_spans_from_swap(d, t2, out);
            let tok = toks.last();
            assert(tok == toks[toks.len() - 1]);
            let sw = swap_runs(runs, toks, out);
            assert(sw.drop_last() =~= swap_runs(d, t2, out));
            assert(sw.last() == (true, token_text(tok.1, out)));
            assert(ip_run(sw.last()));
            let x = SpanView::Ip(token_model(last.1));
            assert(spans_from(runs) == sp.push(x));
            assert(sp.push(x).drop_last() =~= sp);
        } else {
            lemma_spans_from_swap(d, toks, out);
            let sw = swap_runs(runs, toks, out);
            assert(sw.drop_last() =~= swap_runs(d, toks, out));
            assert(sw.last() == last);
            lemma_swap_merge(sp, toks, out, last.1);
        }
    }
}

/// Swapping in texts that are non-empty runs of CIDR characters parsing as
/// IPs keeps a decomposition into maximal runs valid, and keeps its IP runs
/// IP runs.
proof fn lemma_swap_runs_valid(runs: Seq<(bool, Seq<char>)>, toks: Seq<(Net, TokenView)>, out: OutputOptions)
    requires
        valid_runs(runs),
        toks.len() == ip_run_count(runs),
        forall|k: int| 0 <= k < toks.len() ==> round_trip_token(#[trigger] toks[k], out),
    ensures
        valid_runs(swap_runs(runs, toks, out)),
        swap_runs(runs, toks, out).len() == runs.len(),
        forall|i: int| 0 <= i < runs.len() ==> (#[trigger] swap_runs(runs, toks, out)[i]).0 == runs[i].0,
        forall|i: int| 0 <= i < runs.len() && ip_run(#[trigger] runs[i]) ==> ip_run(swap_runs(runs, toks, out)[i]),
    decreases runs.len(),
{
    if runs.len() > 0 {
        let d = runs.drop_last();
        assert forall|i: int| 0 <= i < d.len() implies (#[trigger] d[i]).1.len() > 0 by {
            assert(d[i] == runs[i]);
        }
        assert forall|i: int, j: int| 0 <= i < d.len() && 0 <= j < d[i].1.len() implies cidr_char(
            #[trigger] d[i].1[j],
        ) == d[i].0 by {
            assert(d[i] == runs[i]);
        }
        assert forall|i: int| 0 <= i < d.len() - 1 implies (#[trigger] d[i]).0 != d[i + 1].0 by {
            assert(d[i] == runs[i] && d[i + 1] == runs[i + 1]);
        }
        let last = runs.last();
        assert(last == runs[runs.len() - 1]);
        let t2 = if ip_run(last) { toks.drop_last() } else { toks };
        assert forall|k: int| 0 <= k < t2.len() implies round_trip_token(#[trigger] t2[k], out) by {
            assert(t2[k] == toks[k]);
        }
        lemma_swap_runs_valid(d, t2, out);
        let sd = swap_runs(d, t2, out);
        let sw = swap_runs(runs, toks, out);
        let nl = if ip_run(last) { (true, token_text(toks.last().1, out)) } else { last };
        assert(sw == sd.push(nl));
        if ip_run(last) {
            assert(toks.last() == toks[toks.len() - 1]);
            assert(round_trip_token(toks[toks.len() - 1], out));
        }
        assert(nl.0 == last.0);
        assert forall|i: int| 0 <= i < sw.len() implies (#[trigger] sw[i]).1.len() > 0 by {
            if i < sd.len() {
                assert(sw[i] == sd[i]);
            }
        }
        assert forall|i: int, j: int| 0 <= i < sw.len() && 0 <= j < sw[i].1.len() implies cidr_char(
            #[trigger] sw[i].1[j],
        ) == sw[i].0 by {
            if i < sd.len() {
                assert(sw[i] == sd[i]);
            }
        }
        assert forall|i: int| 0 <= i < sw.len() - 1 implies (#[trigger] sw[i]).0 != sw[i + 1].0 by {
            assert(sw[i] == sd[i]);
            if i + 1 < sd.len() {
                assert(sw[i + 1] == sd[i + 1]);
            } else {
                assert(runs[i] == d[i]);
            }
        }
        assert forall|i: int| 0 <= i < runs.len() implies (#[trigger] sw[i]).0 == runs[i].0 by {
            if i < d.len() {
                assert(sw[i] == sd[i]);
                assert(runs[i] == d[i]);
            }
        }
        assert forall|i: int| 0 <= i < runs.len() && ip_run(#[trigger] runs[i]) implies ip_run(sw[i]) by {
            if i < d.len() {
                assert(sw[i] == sd[i]);
                assert(runs[i] == d[i]);
            }
        }
    }
}

/// Filling the `Ip` slots of `spans` with `toks` writes the text of the
/// spans with their tokens swapped for the tokens the written texts parse to.
proof fn lemma_fill_swap(spans: Seq<SpanView>, toks: Seq<(Net, TokenView)>, opts: OutputOptions)
    requires
        toks.len() == ip_slots(spans),
    ensures
        fill(spans, toks, opts) == spans_text(swap_spans(spans, toks, opts)),
    decreases spans.len(),
{
    if spans.len() > 0 {
        let a = spans.drop_last();
        let x = spans.last();
        lemma_ip_slots_push(a, x);
        assert(a.push(x) =~= spans);
        assert(a + seq![x] =~= spans);
        let n1 = ip_slots(a) as int;
        let t1 = toks.take(n1);
        let t2 = toks.skip(n1);
        assert(t1 + t2 =~= toks);
        lemma_fill_swap(a, t1, opts);
        lemma_fill_concat(a, seq![x], t1, t2, opts);
        assert(seq![x].drop_first() =~= Seq::<SpanView>::empty());
        let sw = swap_spans(spans, toks, opts);
        match x {
            SpanView::Ip(_) => {
                assert(t2.len() == 1);
                assert(t2.drop_first() =~= Seq::<(Net, TokenView)>::empty());
                assert(toks.drop_last() =~= t1);
                assert(t2[0] == toks.last());
                let w = token_text(toks.last().1, opts);
                crate::parse::lemma_token_keeps_original(w);
                assert(fill(Seq::<SpanView>::empty(), t2.drop_first(), opts) == Seq::<char>::empty());
                assert(fill(seq![x], t2, opts) =~= w);
                assert(sw == swap_spans(a, t1, opts).push(SpanView::Ip(token_model(w))));
                assert(sw.drop_last() =~= swap_spans(a, t1, opts));
            },
            SpanView::NonIp(u) => {
                assert(t2.len() == 0);
                assert(t1 =~= toks);
                assert(fill(Seq::<SpanView>::empty(), t2, opts) == Seq::<char>::empty());
                assert(fill(seq![x], t2, opts) =~= u);
                assert(sw == swap_spans(a, toks, opts).push(x));
                assert(sw.drop_last() =~= swap_spans(a, toks, opts));
            },
        }
    }
}

/// The keyed tokens of `spans` with their tokens swapped are the swapped
/// tokens, where each written text parses to a token of the same network.
proof fn lemma_keyed_tokens_swap(spans: Seq<SpanView>, toks: Seq<(Net, TokenView)>, out: OutputOptions)
    requires
        toks.len() == keyed_tokens(spans).len(),
        forall|k: int| 0 <= k < toks.len() ==> round_trip_token(#[trigger] toks[k], out),
    ensures
        keyed_tokens(swap_spans(spans, toks, out)) == retoken(toks, out),
    decreases spans.len(),
{
    if spans.len() == 0 {
        assert(retoken(toks, out) =~= Seq::<(Net, TokenView)>::empty());
    } else {
        let a = spans.drop_last();
        let sw = swap_spans(spans, toks, out);
        if spans.last() is Ip {
            let t2 = toks.drop_last();
            assert forall|k: int| 0 <= k < t2.len() implies round_trip_token(#[trigger] t2[k], out) by {
                assert(t2[k] == toks[k]);
            }
            lemma_keyed_tokens_swap(a, t2, out);
            assert(sw.drop_last() =~= swap_spans(a, t2, out));
            assert(toks.last() == toks[toks.len() - 1]);
            assert(round_trip_token(toks[toks.len() - 1], out));
            assert(retoken(toks, out) =~= retoken(t2, out).push(
                (toks.last().0, token_model(token_text(toks.last().1, out))),
            ));
        } else {
            lemma_keyed_tokens_swap(a, toks, out);
            assert(sw.drop_last() =~= swap_spans(a, toks, out));
        }
    }
}

/// Swapping a second time, for the tokens the first swap put in, changes
/// nothing.
proof fn lemma_swap_twice(spans: Seq<SpanView>, toks: Seq<(Net, TokenView)>, out: OutputOptions)
    requires
        forall|k: int| 0 <= k < toks.len() ==> round_trip_token(#[trigger] toks[k], out),
    ensures
        swap_spans(swap_spans(spans, toks, out), retoken(toks, out), out) == swap_spans(spans, toks, out),
    decreases spans.len(),
{
    if spans.len() > 0 {
        let a = spans.drop_last();
        let s1 = swap_spans(spans, toks, out);
        if spans.last() is Ip && toks.len() > 0 {
            let t2 = toks.drop_last();
            assert forall|k: int| 0 <= k < t2.len() implies round_trip_token(#[trigger] t2[k], out) by {
                assert(t2[k] == toks[k]);
            }
            lemma_swap_twice(a, t2, out);
            assert(s1.drop_last() =~= swap_spans(a, t2, out));
            assert(retoken(toks, out).drop_last() =~= retoken(t2, out));
            assert(toks.last() == toks[toks.len() - 1]);
            assert(round_trip_token(toks[toks.len() - 1], out));
            assert(retoken(toks, out).last() == (toks.last().0, token_model(token_text(toks.last().1, out))));
        } else {
            lemma_swap_twice(a, toks, out);
            assert(s1.drop_last() =~= swap_spans(a, toks, out));
            if spans.last() is Ip {
                assert(retoken(toks, out).len() == 0);
            }
        }
    }
}

/// Every keyed token of `spans` is the token of one of its `Ip` spans,
/// keyed by its network.
proof fn lemma_keyed_tokens_from_spans(spans: Seq<SpanView>)
    ensures
        forall|k: int|
            0 <= k < keyed_tokens(spans).len() ==> (#[trigger] keyed_tokens(spans)[k]).0
                == keyed_tokens(spans)[k].1.network().unwrap() && exists|i: int|
                0 <= i < spans.len() && spans[i] == SpanView::Ip(keyed_tokens(spans)[k].1),
    decreases spans.len(),
{
    if spans.len() > 0 {
        let a = spans.drop_last();
        lemma_keyed_tokens_from_spans(a);
        let kt = keyed_tokens(spans);
        assert forall|k: int| 0 <= k < kt.len() implies (#[trigger] kt[k]).0 == kt[k].1.network().unwrap()
            && exists|i: int| 0 <= i < spans.len() && spans[i] == SpanView::Ip(kt[k].1) by {
            if k < keyed_tokens(a).len() {
                assert(kt[k] == keyed_tokens(a)[k]);
                let i = choose|i: int| 0 <= i < a.len() && a[i] == SpanView::Ip(keyed_tokens(a)[k].1);
                assert(spans[i] == a[i]);
            } else {
                assert(spans[spans.len() - 1] == spans.last());
            }
        }
    }
}

/// The network of an `Ip` span is among the networks of the spans.
proof fn lemma_span_nets_member(spans: Seq<SpanView>, i: int)
    requires
        0 <= i < spans.len(),
        spans[i].net() is Some,
    ensures
        span_nets(spans).contains(spans[i].net()->Some_0),
    decreases spans.len(),
{
    let a = spans.drop_last();
    let p = span_nets(a);
    if i == spans.len() - 1 {
        assert(span_nets(spans) == p.push(spans[i].net()->Some_0));
        assert(span_nets(spans)[p.len() as int] == spans[i].net()->Some_0);
    } else {
        assert(a[i] == spans[i]);
        lemma_span_nets_member(a, i);
        let k = choose|k: int| 0 <= k < p.len() && p[k] == spans[i].net()->Some_0;
        match spans.last().net() {
            Some(n) => assert(span_nets(spans)[k] == p[k]),
            None => {},
        }
    }
}

proof fn lemma_ip_run_count(runs: Seq<(bool, Seq<char>)>)
    ensures
        keyed_tokens(spans_from(runs)).len() == ip_run_count(runs),
    decreases runs.len(),
{
    if runs.len() > 0 {
        let d = runs.drop_last();
        let sp = spans_from(d);
        lemma_ip_run_count(d);
        if ip_run(runs.last()) {
            let x = SpanView::Ip(token_model(runs.last().1));
            assert(sp.push(x).drop_last() =~= sp);
        } else {
            lemma_merge_keyed_tokens(sp, runs.last().1);
        }
    }
}

/// A token of a line's IP run reads back from the text written for it:
/// always without `normalize`, and with it where `ipnet` writes the token's
/// network back.
proof fn lemma_token_round_trips(t: Seq<char>, out: OutputOptions)
    requires
        t.len() > 0,
        forall|j: int| 0 <= j < t.len() ==> cidr_char(#[trigger] t[j]),
        token_model(t).is_ip(),
        out.normalize ==> ipnet_writes_back(token_model(t).network()->Some_0),
    ensures
        round_trip_token((token_model(t).network().unwrap(), token_model(t)), out),
{
    let tok = token_model(t);
    crate::parse::lemma_token_keeps_original(t);
    if out.normalize {
        let n = tok.network()->Some_0;
        crate::parse::lemma_token_network_normalized(t);
        let w = ipnet_text(n);
        assert(token_text(tok, out) == w);
        crate::parse::lemma_stripped_cidr_text(w);
        assert(token_model(w) == TokenView::ValidCidr {
            original: w,
            network: n.truncated(),
            had_host_bits: n.addr != n.network_addr(),
        });
    } else {
        assert(token_text(tok, out) == t);
    }
}

/// Rendering is stable under reclassification: in the default mode,
/// classifying a rendered line and rendering it again gives the same line.
/// Without `normalize` this holds of every line; with it, of every line
/// whose networks `ipnet` writes back (`ipnet_writes_back`, which
/// `Net::to_string` ensures of each network it writes).
pub proof fn lemma_render_round_trip(
    line: Seq<char>,
    classify_opts: SortOptions,
    out: OutputOptions,
    sort: SortOptions,
)
    requires
        out.ips_only == IpsOnlyMode::Off,
        out.normalize ==> forall|n: Net| span_nets(spans_of(line)).contains(n) ==> ipnet_writes_back(n),
    ensures
        render_model(classify_model(line, classify_opts), out, sort).len() == 1,
        render_model(
            classify_model(render_model(classify_model(line, classify_opts), out, sort)[0], classify_opts),
            out,
            sort,
        ) == seq![render_model(classify_model(line, classify_opts), out, sort)[0]],
{
    broadcast use vstd::seq_lib::group_to_multiset_ensures;

    let c = classify_model(line, classify_opts);
    if c is NoIp {
        assert(render_model(c, out, sort) == seq![line]);
    } else {
        let rs = runs_of(line);
        let sp = spans_from(rs);
        let kt = keyed_tokens(sp);
        let toks = sorted_by_key(kt, sort);
        assert(c->HasIp_spans == sp);
        let r = fill(sp, toks, out);
        assert(render_model(c, out, sort) == seq![r]);
        lemma_runs_of(line);
        assert(valid_runs(rs));
        lemma_ip_run_count(rs);
        lemma_sorted_by_key_len(kt, sort);
        lemma_sorted_by_key_permutes(kt, sort);
        lemma_sorted_by_key_is_sorted(kt, sort);
        lemma_keyed_tokens_from_spans(sp);
        lemma_spans_from_origin(rs);
        assert forall|k: int| 0 <= k < toks.len() implies round_trip_token(#[trigger] toks[k], out) by {
            assert(toks.contains(toks[k]));
            assert(toks.to_multiset().count(toks[k]) > 0);
            assert(kt.contains(toks[k]));
            let m = choose|m: int| 0 <= m < kt.len() && kt[m] == toks[k];
            let i = choose|i: int| 0 <= i < sp.len() && sp[i] == SpanView::Ip(kt[m].1);
            let j = choose|j: int|
                0 <= j < rs.len() && ip_run(#[trigger] rs[j]) && sp[i] == SpanView::Ip(token_model(rs[j].1));
            assert forall|q: int| 0 <= q < rs[j].1.len() implies cidr_char(#[trigger] rs[j].1[q]) by {}
            if out.normalize {
                lemma_span_nets_member(sp, i);
            }
            lemma_token_round_trips(rs[j].1, out);
        }
        lemma_spans_from_swap(rs, toks, out);
        let sw = swap_runs(rs, toks, out);
        let sp2 = swap_spans(sp, toks, out);
        lemma_keyed_tokens_len(sp);
        lemma_fill_swap(sp, toks, out);
        crate::classify::lemma_spans_from_text(sw);
        assert(r == runs_text(sw));
        lemma_swap_runs_valid(rs, toks, out);
        crate::classify::lemma_runs_of_valid(sw);
        assert(runs_of(r) == sw);
        assert(spans_of(r) == sp2);
        crate::classify::lemma_classify_ip_presence(line, classify_opts);
        let j = choose|j: int| 0 <= j < rs.len() && ip_run(#[trigger] rs[j]);
        assert(ip_run(sw[j]));
        crate::classify::lemma_classify_ip_presence(r, classify_opts);
        let c2 = classify_model(r, classify_opts);
        assert(c2 is HasIp);
        assert(c2->HasIp_spans == sp2);
        lemma_keyed_tokens_swap(sp, toks, out);
        let rt = retoken(toks, out);
        assert(keyed_tokens(sp2) == rt);
        assert forall|a: int, b: int| 0 <= a < b < rt.len() implies !before(
            #[trigger] rt[b].0,
            #[trigger] rt[a].0,
            sort,
        ) by {
            assert(rt[a].0 == toks[a].0 && rt[b].0 == toks[b].0);
        }
        lemma_sorted_by_key_of_sorted(rt, sort);
        lemma_swap_spans_shape(sp, toks, out);
        lemma_keyed_tokens_len(sp2);
        lemma_fill_swap(sp2, rt, out);
        lemma_swap_twice(sp, toks, out);
        assert(render_model(c2, out, sort) == seq![fill(sp2, rt, out)]);
    }
}

} // verus!
