//! Line classification: a line is decomposed into spans, alternating runs of
//! IP tokens and non-IP content, and classified as holding at least one IP
//! address (`HasIp`) or none (`NoIp`).

use crate::parse::{
    chars_of, cidr_char, debug_quote, debug_text, ipnet_text, ipnet_to_string, is_cidr_char,
    parse_token, token_model, Net, ParsedToken, TokenView,
};
use crate::sort::{before, lemma_before_strict_total_order, precedes, SortOptions};
use vstd::prelude::*;

verus! {

/// The number of leading characters of `s` whose CIDR class is `c`.
pub open spec fn run_len(s: Seq<char>, c: bool) -> nat
    decreases s.len(),
{
    if s.len() > 0 && cidr_char(s[0]) == c {
        1 + run_len(s.drop_first(), c)
    } else {
        0
    }
}

/// A run of class `c` at the start of `s` is as long as its characters keep that class.
pub proof fn lemma_run_len(s: Seq<char>, c: bool)
    ensures
        run_len(s, c) <= s.len(),
        forall|i: int| 0 <= i < run_len(s, c) ==> cidr_char(#[trigger] s[i]) == c,
        run_len(s, c) < s.len() ==> cidr_char(s[run_len(s, c) as int]) != c,
    decreases s.len(),
{
    if s.len() > 0 && cidr_char(s[0]) == c {
        lemma_run_len(s.drop_first(), c);
        assert forall|i: int| 0 <= i < run_len(s, c) implies cidr_char(#[trigger] s[i]) == c by {
            if i > 0 {
                assert(s[i] == s.drop_first()[i - 1]);
            }
        }
        if run_len(s, c) < s.len() {
            assert(s[run_len(s, c) as int] == s.drop_first()[run_len(s.drop_first(), c) as int]);
        }
    }
}

proof fn lemma_run_len_at(s: Seq<char>, c: bool, k: int)
    requires
        0 <= k <= s.len(),
        forall|i: int| 0 <= i < k ==> cidr_char(#[trigger] s[i]) == c,
        k == s.len() || cidr_char(s[k]) != c,
    ensures
        run_len(s, c) == k,
    decreases k,
{
    if k > 0 {
        let t = s.drop_first();
        assert forall|i: int| 0 <= i < k - 1 implies cidr_char(#[trigger] t[i]) == c by {
            assert(t[i] == s[i + 1]);
        }
        if k < s.len() {
            assert(t[k - 1] == s[k]);
        }
        lemma_run_len_at(t, c, k - 1);
    }
}

/// The maximal runs of `s`: each a flag telling whether its characters are
/// CIDR characters, and its text; consecutive runs alternate.
pub open spec fn runs_of(s: Seq<char>) -> Seq<(bool, Seq<char>)>
    decreases s.len(),
{
    if s.len() == 0 {
        seq![]
    } else {
        let c = cidr_char(s[0]);
        let k = run_len(s, c);
        proof {
            lemma_run_len(s, c);
        }
        seq![(c, s.take(k as int))] + runs_of(s.skip(k as int))
    }
}

/// The texts of `runs`, concatenated.
pub open spec fn runs_text(runs: Seq<(bool, Seq<char>)>) -> Seq<char>
    decreases runs.len(),
{
    if runs.len() == 0 {
        seq![]
    } else {
        runs[0].1 + runs_text(runs.drop_first())
    }
}

/// The runs of a line give back the line: no content is lost or added, every
/// run is non-empty, its characters are all of its class, and runs of the
/// same class are never adjacent.
pub proof fn lemma_runs_of(s: Seq<char>)
    ensures
        runs_text(runs_of(s)) == s,
        forall|i: int| 0 <= i < runs_of(s).len() ==> (#[trigger] runs_of(s)[i]).1.len() > 0,
        forall|i: int, j: int|
            0 <= i < runs_of(s).len() && 0 <= j < runs_of(s)[i].1.len() ==> cidr_char(
                #[trigger] runs_of(s)[i].1[j],
            ) == runs_of(s)[i].0,
        forall|i: int|
            0 <= i < runs_of(s).len() - 1 ==> (#[trigger] runs_of(s)[i]).0 != runs_of(s)[i + 1].0,
    decreases s.len(),
{
    if s.len() > 0 {
        let c = cidr_char(s[0]);
        let k = run_len(s, c);
        lemma_run_len(s, c);
        let rest = s.skip(k as int);
        lemma_runs_of(rest);
        let rs = runs_of(s);
        assert(rs.drop_first() =~= runs_of(rest));
        assert(rs[0] == (c, s.take(k as int)));
        assert(s.take(k as int) + rest =~= s);
        assert forall|i: int, j: int|
            0 <= i < rs.len() && 0 <= j < rs[i].1.len() implies cidr_char(#[trigger] rs[i].1[j])
            == rs[i].0 by {
            if i > 0 {
                assert(rs[i] == runs_of(rest)[i - 1]);
            }
        }
        assert forall|i: int| 0 <= i < rs.len() implies (#[trigger] rs[i]).1.len() > 0 by {
            if i > 0 {
                assert(rs[i] == runs_of(rest)[i - 1]);
            }
        }
        assert forall|i: int| 0 <= i < rs.len() - 1 implies (#[trigger] rs[i]).0 != rs[i + 1].0 by {
            assert(rs[i + 1] == runs_of(rest)[i]);
            if i > 0 {
                assert(rs[i] == runs_of(rest)[i - 1]);
            } else {
                let r0 = runs_of(rest)[0];
                assert(rest.len() > 0);
                assert(r0.1[0] == rest[0]);
                assert(rest[0] == s[k as int]);
            }
        }
    }
}

/// Splits a line into its maximal runs of CIDR characters and of other
/// characters, each with a flag telling which it is.
pub fn interleave_runs(line: &str) -> (r: Vec<(bool, &str)>)
    ensures
        r@.len() == runs_of(line@).len(),
        forall|i: int|
            0 <= i < r@.len() ==> (#[trigger] r@[i]).0 == runs_of(line@)[i].0 && r@[i].1@
                == runs_of(line@)[i].1,
{
    let cs = chars_of(line);
    let n = cs.len();
    let mut runs: Vec<(bool, &str)> = Vec::new();
    let mut start: usize = 0;
    assert(line@.skip(0) =~= line@);
    while start < n
        invariant
            start <= n == cs@.len(),
            cs@ == line@,
            runs@.len() + runs_of(line@.skip(start as int)).len() == runs_of(line@).len(),
            forall|i: int|
                0 <= i < runs@.len() ==> (#[trigger] runs@[i]).0 == runs_of(line@)[i].0
                    && runs@[i].1@ == runs_of(line@)[i].1,
            forall|i: int|
                0 <= i < runs_of(line@.skip(start as int)).len() ==> #[trigger] runs_of(
                    line@.skip(start as int),
                )[i] == runs_of(line@)[runs@.len() + i],
        decreases n - start,
    {
        let current = is_cidr_char(cs[start]);
        let mut end: usize = start + 1;
        while end < n && is_cidr_char(cs[end]) == current
            invariant
                start < end <= n == cs@.len(),
                current == cidr_char(cs@[start as int]),
                forall|i: int| start <= i < end ==> cidr_char(#[trigger] cs@[i]) == current,
            decreases n - end,
        {
            end = end + 1;
        }
        let ghost rest = line@.skip(start as int);
        proof {
            assert forall|i: int| 0 <= i < end - start implies cidr_char(#[trigger] rest[i])
                == current by {
                assert(rest[i] == cs@[i + start]);
            }
            if end < n {
                assert(rest[end - start] == cs@[end as int]);
            }
            assert(rest[0] == cs@[start as int]);
            lemma_run_len_at(rest, current, end - start);
            assert(rest.take(end - start) =~= line@.subrange(start as int, end as int));
            assert(rest.skip(end - start) =~= line@.skip(end as int));
            let rr = runs_of(rest);
            assert(rr[0] == (current, line@.subrange(start as int, end as int)));
            assert(rr.drop_first() =~= runs_of(line@.skip(end as int)));
            assert(runs_of(line@)[runs@.len() as int] == rr[0]);
            assert forall|i: int| 0 <= i < runs_of(line@.skip(end as int)).len() implies #[trigger] runs_of(
                line@.skip(end as int),
            )[i] == runs_of(line@)[runs@.len() + 1 + i] by {
                assert(runs_of(line@.skip(end as int))[i] == rr[i + 1]);
            }
        }
        runs.push((current, line.substring_char(start, end)));
        start = end;
    }
    proof {
        assert(line@.skip(n as int).len() == 0);
    }
    runs
}


/// A single span within a line: an IP address token or a run of non-IP
/// content. Adjacent non-IP content is always merged into one `NonIp` span.
#[derive(Clone, Debug)]
pub enum Span {
    /// A recognized IP address or CIDR block.
    Ip(ParsedToken),
    /// A run of non-IP content (decoration, punctuation, whitespace, text).
    NonIp(String),
}

/// The mathematical value of a [`Span`].
pub enum SpanView {
    Ip(TokenView),
    NonIp(Seq<char>),
}

impl View for Span {
    type V = SpanView;

    open spec fn view(&self) -> SpanView {
        match self {
            Span::Ip(t) => SpanView::Ip(t@),
            Span::NonIp(s) => SpanView::NonIp(s@),
        }
    }
}

impl SpanView {
    /// The text this span stands for in the line.
    pub open spec fn text(self) -> Seq<char> {
        match self {
            SpanView::Ip(t) => t.original(),
            SpanView::NonIp(s) => s,
        }
    }

    /// An `Ip` span holds a token that is an IP address with a well-formed
    /// network.
    pub open spec fn wf(self) -> bool {
        self matches SpanView::Ip(t) ==> t.is_ip() && t.wf()
    }

    /// The network of an `Ip` span.
    pub open spec fn net(self) -> Option<Net> {
        match self {
            SpanView::Ip(t) => t.network(),
            SpanView::NonIp(_) => None,
        }
    }
}

/// The values of a sequence of spans.
pub open spec fn spans_view(v: Seq<Span>) -> Seq<SpanView> {
    v.map_values(|s: Span| s@)
}

/// Every span of `spans` is well formed.
pub open spec fn spans_wf(spans: Seq<SpanView>) -> bool {
    forall|i: int| 0 <= i < spans.len() ==> (#[trigger] spans[i]).wf()
}

/// The text of a sequence of spans: their texts concatenated.
pub open spec fn spans_text(spans: Seq<SpanView>) -> Seq<char>
    decreases spans.len(),
{
    if spans.len() == 0 {
        seq![]
    } else {
        spans_text(spans.drop_last()) + spans.last().text()
    }
}

/// The networks of the `Ip` spans of `spans`, in order.
pub open spec fn span_nets(spans: Seq<SpanView>) -> Seq<Net>
    decreases spans.len(),
{
    if spans.len() == 0 {
        seq![]
    } else {
        let p = span_nets(spans.drop_last());
        match spans.last().net() {
            Some(n) => p.push(n),
            None => p,
        }
    }
}

/// `spans` with the text `t` appended as non-IP content: merged into a
/// final `NonIp` span, or pushed as a new one.
pub open spec fn merge_text(spans: Seq<SpanView>, t: Seq<char>) -> Seq<SpanView> {
    if spans.len() > 0 && spans.last() is NonIp {
        spans.drop_last().push(SpanView::NonIp(spans.last()->NonIp_0 + t))
    } else {
        spans.push(SpanView::NonIp(t))
    }
}

/// `spans` extended by a run: a CIDR run that parses as an IP becomes an
/// `Ip` span; any other run is merged as non-IP content.
pub open spec fn span_step(spans: Seq<SpanView>, run: (bool, Seq<char>)) -> Seq<SpanView> {
    if run.0 && token_model(run.1).is_ip() {
        spans.push(SpanView::Ip(token_model(run.1)))
    } else {
        merge_text(spans, run.1)
    }
}

/// The spans built from `runs`, in order.
pub open spec fn spans_from(runs: Seq<(bool, Seq<char>)>) -> Seq<SpanView>
    decreases runs.len(),
{
    if runs.len() == 0 {
        seq![]
    } else {
        span_step(spans_from(runs.drop_last()), runs.last())
    }
}

/// The spans of a line.
pub open spec fn spans_of(line: Seq<char>) -> Seq<SpanView> {
    spans_from(runs_of(line))
}

/// Appends `content` to the last span if it is a `NonIp` span, otherwise
/// pushes a new `NonIp` span.
pub fn merge_non_ip(spans: &mut Vec<Span>, content: &str)
    ensures
        spans_view(final(spans)@) == merge_text(spans_view(old(spans)@), content@),
{
    let ghost before = spans_view(spans@);
    match spans.pop() {
        Some(Span::NonIp(s)) => {
            let mut s = s;
            s.append(content);
            spans.push(Span::NonIp(s));
            assert(spans_view(spans@) =~= merge_text(before, content@));
        },
        Some(other) => {
            spans.push(other);
            spans.push(Span::NonIp(content.to_owned()));
            assert(spans_view(spans@) =~= merge_text(before, content@));
        },
        None => {
            spans.push(Span::NonIp(content.to_owned()));
            assert(spans_view(spans@) =~= merge_text(before, content@));
        },
    }
}

proof fn lemma_merge_text_wf(spans: Seq<SpanView>, t: Seq<char>)
    requires
        spans_wf(spans),
    ensures
        spans_wf(merge_text(spans, t)),
{
    let m = merge_text(spans, t);
    assert forall|i: int| 0 <= i < m.len() implies (#[trigger] m[i]).wf() by {
        if i < spans.len() - 1 || (i < spans.len() && !(spans.last() is NonIp)) {
            assert(m[i] == spans[i]);
        }
    }
}

/// The index just after the last `'/'` in `s`, or 0 where there is none.
pub open spec fn after_last_slash(s: Seq<char>) -> int
    decreases s.len(),
{
    if s.len() == 0 {
        0
    } else if s.last() == '/' {
        s.len() as int
    } else {
        after_last_slash(s.drop_last())
    }
}

/// A run that looks like a CIDR: an address part holding a `'.'` or a
/// `':'`, then a `'/'`, then a non-empty decimal prefix length.
pub open spec fn looks_like_cidr(s: Seq<char>) -> bool {
    let k = after_last_slash(s);
    &&& 1 < k < s.len()
    &&& forall|j: int| k <= j < s.len() ==> '0' <= #[trigger] s[j] && s[j] <= '9'
    &&& exists|j: int| 0 <= j < k - 1 && (#[trigger] s[j] == '.' || s[j] == ':')
}

proof fn lemma_after_last_slash(s: Seq<char>, k: int)
    requires
        0 <= k <= s.len(),
        k == 0 || s[k - 1] == '/',
        forall|i: int| k <= i < s.len() ==> #[trigger] s[i] != '/',
    ensures
        after_last_slash(s) == k,
    decreases s.len(),
{
    if s.len() > k {
        let t = s.drop_last();
        assert forall|i: int| k <= i < t.len() implies #[trigger] t[i] != '/' by {
            assert(t[i] == s[i]);
        }
        lemma_after_last_slash(t, k);
    }
}

/// Whether the characters `s` look like a CIDR.
fn looks_like_cidr_chars(s: &Vec<char>) -> (r: bool)
    ensures
        r == looks_like_cidr(s@),
{
    let n = s.len();
    let mut k: usize = n;
    while k > 0 && s[k - 1] != '/'
        invariant
            k <= n == s@.len(),
            forall|i: int| k <= i < n ==> #[trigger] s@[i] != '/',
        decreases k,
    {
        k = k - 1;
    }
    proof {
        lemma_after_last_slash(s@, k as int);
    }
    if k <= 1 || k >= n {
        return false;
    }
    let mut digits = true;
    let mut i: usize = k;
    while i < n
        invariant
            k <= i <= n == s@.len(),
            digits <==> forall|j: int| k <= j < i ==> '0' <= #[trigger] s@[j] && s@[j] <= '9',
        decreases n - i,
    {
        if !('0' <= s[i] && s[i] <= '9') {
            digits = false;
        }
        i = i + 1;
    }
    let mut sep = false;
    let mut j: usize = 0;
    while j < k - 1
        invariant
            1 < k < n == s@.len(),
            j <= k - 1,
            sep <==> exists|m: int| 0 <= m < j && (#[trigger] s@[m] == '.' || s@[m] == ':'),
        decreases k - 1 - j,
    {
        if s[j] == '.' || s[j] == ':' {
            sep = true;
        }
        j = j + 1;
    }
    digits && sep
}

/// The warning for a run, if it needs one: a CIDR with host bits set, or a
/// run that looks like a CIDR but does not parse as an IP.
pub open spec fn run_warning(run: (bool, Seq<char>)) -> Option<Seq<char>> {
    if run.0 && token_model(run.1).is_ip() {
        warning_for(token_model(run.1))
    } else if run.0 && looks_like_cidr(run.1) {
        Some("warning: invalid CIDR "@ + debug_text(run.1) + ", treating as text"@)
    } else {
        None
    }
}

/// The warnings of `runs`, in order.
pub open spec fn run_warnings(runs: Seq<(bool, Seq<char>)>) -> Seq<Seq<char>>
    decreases runs.len(),
{
    if runs.len() == 0 {
        seq![]
    } else {
        let p = run_warnings(runs.drop_last());
        match run_warning(runs.last()) {
            Some(w) => p.push(w),
            None => p,
        }
    }
}

/// The warnings of a line, in order: one for each CIDR with host bits set
/// and one for each malformed CIDR (such as `10.0.0.1/33`), which is kept
/// as non-IP content.
pub open spec fn warnings_of(line: Seq<char>) -> Seq<Seq<char>> {
    run_warnings(runs_of(line))
}

/// Decomposes a line into spans, as `spanify` does, and gathers the
/// line's warnings.
fn spanify_with_warnings(line: &str) -> (r: (Vec<Span>, Vec<String>))
    ensures
        spans_view(r.0@) == spans_of(line@),
        spans_wf(spans_of(line@)),
        r.1@.map_values(|w: String| w@) == warnings_of(line@),
{
    let runs = interleave_runs(line);
    let ghost rs = runs_of(line@);
    let mut spans: Vec<Span> = Vec::new();
    let mut warnings: Vec<String> = Vec::new();
    let n = runs.len();
    let mut i: usize = 0;
    while i < n
        invariant
            i <= n == runs@.len() == rs.len(),
            rs == runs_of(line@),
            forall|k: int| 0 <= k < n ==> (#[trigger] runs@[k]).0 == rs[k].0 && runs@[k].1@ == rs[k].1,
            spans_view(spans@) == spans_from(rs.take(i as int)),
            spans_wf(spans_view(spans@)),
            warnings@.map_values(|w: String| w@) == run_warnings(rs.take(i as int)),
        decreases n - i,
    {
        let (is_cidr_run, content) = runs[i];
        let ghost before = spans_view(spans@);
        let ghost wbefore = warnings@.map_values(|w: String| w@);
        proof {
            assert(rs.take(i + 1).drop_last() =~= rs.take(i as int));
            assert(rs.take(i + 1).last() == rs[i as int]);
        }
        if is_cidr_run {
            let parsed = parse_token(content);
            if parsed.is_ip() {
                match &parsed {
                    ParsedToken::ValidCidr { original, network, had_host_bits } => {
                        if *had_host_bits {
                            let mut w = "warning: host bits set in ".to_owned();
                            w.append(debug_quote(original.as_str()).as_str());
                            w.append(", treating as ");
                            w.append(ipnet_to_string(*network).as_str());
                            warnings.push(w);
                            assert(warnings@.map_values(|w: String| w@) =~= wbefore.push(w@));
                        }
                    },
                    _ => {},
                }
                spans.push(Span::Ip(parsed));
                proof {
                    assert(spans_view(spans@) =~= before.push(SpanView::Ip(parsed@)));
                    let sv = spans_view(spans@);
                    assert forall|k: int| 0 <= k < sv.len() implies (#[trigger] sv[k]).wf() by {
                        if k < before.len() {
                            assert(sv[k] == before[k]);
                        }
                    }
                }
            } else {
                let cs = chars_of(content);
                if looks_like_cidr_chars(&cs) {
                    let mut w = "warning: invalid CIDR ".to_owned();
                    w.append(debug_quote(content).as_str());
                    w.append(", treating as text");
                    warnings.push(w);
                    assert(warnings@.map_values(|w: String| w@) =~= wbefore.push(w@));
                }
                merge_non_ip(&mut spans, content);
                proof {
                    lemma_merge_text_wf(before, content@);
                }
            }
        } else {
            merge_non_ip(&mut spans, content);
            proof {
                lemma_merge_text_wf(before, content@);
            }
        }
        i = i + 1;
    }
    proof {
        assert(rs.take(n as int) =~= rs);
    }
    (spans, warnings)
}

/// Decomposes a line into spans: CIDR runs that parse as IP tokens become
/// `Ip` spans; everything else is merged into `NonIp` spans.
pub fn spanify(line: &str) -> (r: Vec<Span>)
    ensures
        spans_view(r@) == spans_of(line@),
        spans_wf(spans_of(line@)),
{
    spanify_with_warnings(line).0
}

/// The warnings of a line: one per CIDR with host bits set and one per
/// run that looks like a CIDR but does not parse.
pub fn text_warnings(line: &str) -> (r: Vec<String>)
    ensures
        r@.map_values(|w: String| w@) == warnings_of(line@),
{
    spanify_with_warnings(line).1
}


/// A line of input after classification.
#[derive(Clone, Debug)]
pub enum ClassifiedLine {
    /// The line holds at least one recognizable IP address or CIDR.
    HasIp {
        /// The line as alternating IP and non-IP spans.
        spans: Vec<Span>,
        /// The lowest IP on the line, the line's sort key.
        sort_key: Net,
        /// Warnings for CIDRs with host bits set and for malformed CIDRs;
        /// the caller emits them.
        warnings: Vec<String>,
    },
    /// The line holds no recognizable IP address; it separates blocks and is
    /// kept as it was.
    NoIp(String),
}

/// The mathematical value of a [`ClassifiedLine`].
pub enum LineView {
    HasIp { spans: Seq<SpanView>, sort_key: Net, warnings: Seq<Seq<char>> },
    NoIp(Seq<char>),
}

impl View for ClassifiedLine {
    type V = LineView;

    open spec fn view(&self) -> LineView {
        match self {
            ClassifiedLine::HasIp { spans, sort_key, warnings } => LineView::HasIp {
                spans: spans_view(spans@),
                sort_key: *sort_key,
                warnings: warnings@.map_values(|w: String| w@),
            },
            ClassifiedLine::NoIp(s) => LineView::NoIp(s@),
        }
    }
}

impl LineView {
    /// The spans of a `HasIp` line are well formed, and so is its sort key.
    pub open spec fn wf(self) -> bool {
        match self {
            LineView::HasIp { spans, sort_key, .. } => spans_wf(spans) && sort_key.wf(),
            LineView::NoIp(_) => true,
        }
    }

    /// The text of the line: its spans' texts, or the kept line.
    pub open spec fn text(self) -> Seq<char> {
        match self {
            LineView::HasIp { spans, .. } => spans_text(spans),
            LineView::NoIp(s) => s,
        }
    }
}

/// The values of a sequence of lines.
pub open spec fn lines_view(v: Seq<ClassifiedLine>) -> Seq<LineView> {
    v.map_values(|l: ClassifiedLine| l@)
}

/// Every line of `lines` is well formed.
pub open spec fn lines_wf(lines: Seq<LineView>) -> bool {
    forall|i: int| 0 <= i < lines.len() ==> (#[trigger] lines[i]).wf()
}

/// The first of the lowest networks of a non-empty `nets` under `opts`:
/// the first element of `nets` stably sorted.
pub open spec fn first_min(nets: Seq<Net>, opts: SortOptions) -> Net
    decreases nets.len(),
{
    if nets.len() <= 1 {
        nets[0]
    } else {
        let m = first_min(nets.drop_last(), opts);
        if before(nets.last(), m, opts) {
            nets.last()
        } else {
            m
        }
    }
}

/// The first lowest network is one of the networks, and none of them sorts
/// strictly before it.
pub proof fn lemma_first_min(nets: Seq<Net>, opts: SortOptions)
    requires
        nets.len() > 0,
    ensures
        nets.contains(first_min(nets, opts)),
        forall|i: int| 0 <= i < nets.len() ==> !before(#[trigger] nets[i], first_min(nets, opts), opts),
    decreases nets.len(),
{
    if nets.len() > 1 {
        let d = nets.drop_last();
        lemma_first_min(d, opts);
        let m = first_min(d, opts);
        let j = choose|j: int| 0 <= j < d.len() && d[j] == m;
        assert(nets[j] == m);
        assert forall|i: int| 0 <= i < nets.len() implies !before(#[trigger] nets[i], first_min(nets, opts), opts) by {
            if i < d.len() {
                assert(nets[i] == d[i]);
                lemma_before_strict_total_order(nets[i], m, nets.last(), opts);
            }
            lemma_before_strict_total_order(nets.last(), m, nets.last(), opts);
        }
        if before(nets.last(), m, opts) {
            assert(nets[nets.len() - 1] == nets.last());
        }
    }
}

/// The warning for a token with host bits set, if it is one.
pub open spec fn warning_for(t: TokenView) -> Option<Seq<char>> {
    match t {
        TokenView::ValidCidr { original, network, had_host_bits } => if had_host_bits {
            Some(
                "warning: host bits set in "@ + debug_text(original) + ", treating as "@
                    + ipnet_text(network),
            )
        } else {
            None
        },
        _ => None,
    }
}

/// The classification of a line under `opts`: `NoIp` when its spans hold no
/// IP; otherwise `HasIp` with the spans, the first lowest IP as sort key, and
/// the line's warnings.
pub open spec fn classify_model(line: Seq<char>, opts: SortOptions) -> LineView {
    let spans = spans_of(line);
    let nets = span_nets(spans);
    if nets.len() == 0 {
        LineView::NoIp(line)
    } else {
        LineView::HasIp { spans, sort_key: first_min(nets, opts), warnings: warnings_of(line) }
    }
}

/// Classifies a single line of input: decomposes it into spans and, if any
/// IP spans are found, classifies it `HasIp` with the lowest IP as sort key;
/// otherwise `NoIp`.
pub fn classify_line(line: &str, opts: &SortOptions) -> (r: ClassifiedLine)
    ensures
        r@ == classify_model(line@, *opts),
        r@.wf(),
{
    let (spans, warnings) = spanify_with_warnings(line);
    let ghost sv = spans_view(spans@);
    let mut have_key = false;
    let mut key = Net { is_v6: false, addr: 0, prefix_len: 0 };
    let n = spans.len();
    let mut i: usize = 0;
    while i < n
        invariant
            i <= n == spans@.len() == sv.len(),
            sv == spans_view(spans@),
            spans_wf(sv),
            warnings@.map_values(|w: String| w@) == warnings_of(line@),
            have_key == (span_nets(sv.take(i as int)).len() > 0),
            have_key ==> key == first_min(span_nets(sv.take(i as int)), *opts),
            key.wf(),
        decreases n - i,
    {
        let ghost pre = sv.take(i as int);
        proof {
            assert(sv.take(i + 1).drop_last() =~= pre);
            assert(sv.take(i + 1).last() == sv[i as int]);
            assert(sv[i as int].wf());
        }
        match &spans[i] {
            Span::Ip(token) => {
                match token.network() {
                    Some(net) => {
                        proof {
                            assert(span_nets(sv.take(i + 1)) == span_nets(pre).push(net));
                            if span_nets(pre).len() > 0 {
                                assert(span_nets(pre).push(net).drop_last() =~= span_nets(pre));
                            }
                        }
                        if !have_key || precedes(&net, &key, opts) {
                            key = net;
                        }
                        have_key = true;
                    },
                    None => {},
                }
            },
            Span::NonIp(_) => {},
        }
        i = i + 1;
    }
    proof {
        assert(sv.take(n as int) =~= sv);
    }
    if !have_key {
        return ClassifiedLine::NoIp(line.to_owned());
    }
    ClassifiedLine::HasIp { spans, sort_key: key, warnings }
}


proof fn lemma_runs_text_last(runs: Seq<(bool, Seq<char>)>)
    requires
        runs.len() > 0,
    ensures
        runs_text(runs) == runs_text(runs.drop_last()) + runs.last().1,
    decreases runs.len(),
{
    if runs.len() == 1 {
        assert(runs_text(runs.drop_first()) == Seq::<char>::empty());
        assert(runs.drop_last().len() == 0);
        assert(runs_text(runs) =~= runs[0].1);
    } else {
        let t = runs.drop_first();
        lemma_runs_text_last(t);
        assert(t.drop_last() =~= runs.drop_last().drop_first());
        assert(runs.drop_last()[0] == runs[0]);
        assert(runs_text(runs) =~= runs[0].1 + runs_text(t));
        assert(runs_text(runs.drop_last()) =~= runs[0].1 + runs_text(t.drop_last()));
        assert(t.last() == runs.last());
    }
}

/// The spans built from runs hold exactly the runs' text.
pub proof fn lemma_spans_from_text(runs: Seq<(bool, Seq<char>)>)
    ensures
        spans_text(spans_from(runs)) == runs_text(runs),
    decreases runs.len(),
{
    if runs.len() > 0 {
        let sp = spans_from(runs.drop_last());
        let run = runs.last();
        lemma_spans_from_text(runs.drop_last());
        lemma_runs_text_last(runs);
        let m = span_step(sp, run);
        if run.0 && token_model(run.1).is_ip() {
            assert(m.drop_last() =~= sp);
        } else if sp.len() > 0 && sp.last() is NonIp {
            assert(m.drop_last() =~= sp.drop_last());
            assert(spans_text(sp) == spans_text(sp.drop_last()) + sp.last().text());
            assert(spans_text(m) =~= spans_text(sp) + run.1);
        } else {
            assert(m.drop_last() =~= sp);
        }
    }
}

/// Spans lose and add no content: the texts of a line's spans, in order,
/// give back the line.
pub proof fn lemma_spans_of_text(line: Seq<char>)
    ensures
        spans_text(spans_of(line)) == line,
{
    lemma_spans_from_text(runs_of(line));
    lemma_runs_of(line);
}

/// Classification preserves the line: a `NoIp` line keeps it, and the spans
/// of a `HasIp` line reconstruct it.
pub proof fn lemma_classify_preserves_text(line: Seq<char>, opts: SortOptions)
    ensures
        classify_model(line, opts).text() == line,
{
    lemma_spans_of_text(line);
}

/// The sort key of a `HasIp` line is one of its IPs, and none of its IPs
/// sorts strictly before it.
pub proof fn lemma_classify_sort_key(line: Seq<char>, opts: SortOptions)
    ensures
        classify_model(line, opts) matches LineView::HasIp { spans, sort_key, .. } ==> {
            &&& span_nets(spans).contains(sort_key)
            &&& forall|i: int|
                0 <= i < span_nets(spans).len() ==> !before(
                    #[trigger] span_nets(spans)[i],
                    sort_key,
                    opts,
                )
        },
{
    let nets = span_nets(spans_of(line));
    if nets.len() > 0 {
        lemma_first_min(nets, opts);
    }
}

/// Neighbouring spans differ in kind, and every `NonIp` span holds text.
pub open spec fn spans_alternate(spans: Seq<SpanView>) -> bool {
    &&& forall|i: int|
        0 <= i < spans.len() - 1 ==> ((#[trigger] spans[i]) is Ip) != (spans[i + 1] is Ip)
    &&& forall|i: int| 0 <= i < spans.len() ==> (#[trigger] spans[i]) is NonIp ==> spans[i]->NonIp_0.len() > 0
}

/// The run `run` is a CIDR run that parses as an IP.
pub open spec fn ip_run(run: (bool, Seq<char>)) -> bool {
    run.0 && token_model(run.1).is_ip()
}

proof fn lemma_merge_text_nets(sp: Seq<SpanView>, t: Seq<char>)
    ensures
        span_nets(merge_text(sp, t)) == span_nets(sp),
{
    let m = merge_text(sp, t);
    if sp.len() > 0 && sp.last() is NonIp {
        let q = sp.drop_last();
        assert(m.drop_last() =~= q);
        assert(span_nets(sp) == span_nets(q));
    } else {
        assert(m.drop_last() =~= sp);
    }
}

/// The spans built from `runs` hold no IP exactly when no run is a CIDR run
/// that parses as an IP.
proof fn lemma_spans_from_nets(runs: Seq<(bool, Seq<char>)>)
    ensures
        (span_nets(spans_from(runs)).len() == 0) <==> forall|j: int| 0 <= j < runs.len() ==> !ip_run(
            #[trigger] runs[j],
        ),
    decreases runs.len(),
{
    if runs.len() > 0 {
        let d = runs.drop_last();
        lemma_spans_from_nets(d);
        let sp = spans_from(d);
        let run = runs.last();
        assert(run == runs[runs.len() - 1]);
        if ip_run(run) {
            let r = sp.push(SpanView::Ip(token_model(run.1)));
            assert(r.drop_last() =~= sp);
            assert(span_nets(r) == span_nets(sp).push(token_model(run.1).network()->Some_0));
        } else {
            lemma_merge_text_nets(sp, run.1);
            assert forall|j: int| 0 <= j < d.len() implies #[trigger] runs[j] == d[j] by {}
            if exists|j: int| 0 <= j < d.len() && ip_run(#[trigger] d[j]) {
                let j = choose|j: int| 0 <= j < d.len() && ip_run(#[trigger] d[j]);
                assert(ip_run(runs[j]));
            }
        }
        if forall|j: int| 0 <= j < runs.len() ==> !ip_run(#[trigger] runs[j]) {
            assert forall|j: int| 0 <= j < d.len() implies !ip_run(#[trigger] d[j]) by {
                assert(runs[j] == d[j]);
            }
        }
    }
}

/// Every `Ip` span built from `runs` is the token of one CIDR run of
/// `runs` that parses as an IP.
pub proof fn lemma_spans_from_origin(runs: Seq<(bool, Seq<char>)>)
    ensures
        forall|i: int|
            0 <= i < spans_from(runs).len() && (#[trigger] spans_from(runs)[i]) is Ip ==> exists|j: int|
                0 <= j < runs.len() && ip_run(#[trigger] runs[j]) && spans_from(runs)[i] == SpanView::Ip(
                    token_model(runs[j].1),
                ),
    decreases runs.len(),
{
    if runs.len() > 0 {
        let d = runs.drop_last();
        lemma_spans_from_origin(d);
        let sp = spans_from(d);
        let run = runs.last();
        assert(run == runs[runs.len() - 1]);
        let r = spans_from(runs);
        assert forall|i: int| 0 <= i < r.len() && (#[trigger] r[i]) is Ip implies exists|j: int|
            0 <= j < runs.len() && ip_run(#[trigger] runs[j]) && r[i] == SpanView::Ip(token_model(runs[j].1)) by {
            if i < sp.len() && r[i] == sp[i] {
                let j = choose|j: int|
                    0 <= j < d.len() && ip_run(#[trigger] d[j]) && sp[i] == SpanView::Ip(token_model(d[j].1));
                assert(runs[j] == d[j]);
            } else if ip_run(run) {
                assert(i == sp.len());
            } else {
                assert(r == merge_text(sp, run.1));
                assert(r[i] is NonIp);
            }
        }
    }
}

/// Over runs that are non-empty and alternate in class, the spans built
/// alternate in kind and hold no empty `NonIp` span; the last span is an
/// `Ip` span exactly when the last run parses as an IP.
proof fn lemma_spans_from_alternate(runs: Seq<(bool, Seq<char>)>)
    requires
        forall|i: int| 0 <= i < runs.len() ==> (#[trigger] runs[i]).1.len() > 0,
        forall|i: int| 0 <= i < runs.len() - 1 ==> (#[trigger] runs[i]).0 != runs[i + 1].0,
    ensures
        spans_alternate(spans_from(runs)),
        runs.len() > 0 ==> spans_from(runs).len() > 0 && (spans_from(runs).last() is Ip <==> ip_run(
            runs.last(),
        )),
    decreases runs.len(),
{
    if runs.len() > 0 {
        let d = runs.drop_last();
        assert forall|i: int| 0 <= i < d.len() implies (#[trigger] d[i]).1.len() > 0 by {
            assert(d[i] == runs[i]);
        }
        assert forall|i: int| 0 <= i < d.len() - 1 implies (#[trigger] d[i]).0 != d[i + 1].0 by {
            assert(d[i] == runs[i] && d[i + 1] == runs[i + 1]);
        }
        lemma_spans_from_alternate(d);
        let sp = spans_from(d);
        let run = runs.last();
        assert(run == runs[runs.len() - 1]);
        assert(run.1.len() > 0);
        if d.len() > 0 {
            assert(d.last() == runs[runs.len() - 2]);
        }
        let r = spans_from(runs);
        if ip_run(run) {
            assert(r == sp.push(SpanView::Ip(token_model(run.1))));
            assert forall|i: int| 0 <= i < r.len() - 1 implies ((#[trigger] r[i]) is Ip) != (r[i + 1] is Ip) by {
                if i < sp.len() - 1 {
                    assert(r[i] == sp[i] && r[i + 1] == sp[i + 1]);
                } else {
                    assert(r[i] == sp.last());
                }
            }
            assert forall|i: int| 0 <= i < r.len() && (#[trigger] r[i]) is NonIp implies r[i]->NonIp_0.len() > 0 by {
                assert(r[i] == sp[i]);
            }
        } else if sp.len() > 0 && sp.last() is NonIp {
            assert(r == sp.drop_last().push(SpanView::NonIp(sp.last()->NonIp_0 + run.1)));
            assert forall|i: int| 0 <= i < r.len() - 1 implies ((#[trigger] r[i]) is Ip) != (r[i + 1] is Ip) by {
                assert(r[i] == sp[i]);
                if i + 1 < r.len() - 1 {
                    assert(r[i + 1] == sp[i + 1]);
                } else {
                    assert(sp[i + 1] == sp.last());
                }
            }
            assert forall|i: int| 0 <= i < r.len() && (#[trigger] r[i]) is NonIp implies r[i]->NonIp_0.len() > 0 by {
                if i < r.len() - 1 {
                    assert(r[i] == sp[i]);
                }
            }
        } else {
            assert(r == sp.push(SpanView::NonIp(run.1)));
            assert forall|i: int| 0 <= i < r.len() - 1 implies ((#[trigger] r[i]) is Ip) != (r[i + 1] is Ip) by {
                if i < sp.len() - 1 {
                    assert(r[i] == sp[i] && r[i + 1] == sp[i + 1]);
                } else {
                    assert(r[i] == sp.last());
                }
            }
            assert forall|i: int| 0 <= i < r.len() && (#[trigger] r[i]) is NonIp implies r[i]->NonIp_0.len() > 0 by {
                if i < sp.len() {
                    assert(r[i] == sp[i]);
                }
            }
        }
    }
}

/// The spans of a line have the shape of the span model: neighbouring
/// spans differ in kind (non-IP content is merged, IP spans are separated by
/// non-IP content), every `NonIp` span holds text, and every `Ip` span is
/// the token of one maximal run of CIDR characters of the line (the runs
/// alternate between CIDR and other characters, so each is maximal).
pub proof fn lemma_spans_of_shape(line: Seq<char>)
    ensures
        spans_alternate(spans_of(line)),
        forall|i: int|
            0 <= i < spans_of(line).len() && (#[trigger] spans_of(line)[i]) is Ip ==> exists|j: int|
                0 <= j < runs_of(line).len() && ip_run(#[trigger] runs_of(line)[j]) && spans_of(line)[i]
                    == SpanView::Ip(token_model(runs_of(line)[j].1)),
        forall|i: int| 0 <= i < runs_of(line).len() - 1 ==> (#[trigger] runs_of(line)[i]).0 != runs_of(line)[i + 1].0,
        runs_text(runs_of(line)) == line,
{
    lemma_runs_of(line);
    lemma_spans_from_alternate(runs_of(line));
    lemma_spans_from_origin(runs_of(line));
}

/// A line is `NoIp` exactly when no maximal run of CIDR characters in it
/// parses as an IP; a `HasIp` line has an `Ip` span.
pub proof fn lemma_classify_ip_presence(line: Seq<char>, opts: SortOptions)
    ensures
        (classify_model(line, opts) is NoIp) <==> forall|j: int|
            0 <= j < runs_of(line).len() ==> !ip_run(#[trigger] runs_of(line)[j]),
        classify_model(line, opts) is HasIp ==> classify_model(line, opts)->HasIp_spans == spans_of(line)
            && exists|i: int| 0 <= i < spans_of(line).len() && (#[trigger] spans_of(line)[i]) is Ip,
{
    lemma_spans_from_nets(runs_of(line));
    let spans = spans_of(line);
    if span_nets(spans).len() > 0 {
        lemma_span_nets_from_ip(spans);
        assert(classify_model(line, opts) == LineView::HasIp {
            spans,
            sort_key: first_min(span_nets(spans), opts),
            warnings: warnings_of(line),
        });
    } else {
        assert(classify_model(line, opts) == LineView::NoIp(line));
    }
}

proof fn lemma_span_nets_from_ip(spans: Seq<SpanView>)
    requires
        span_nets(spans).len() > 0,
    ensures
        exists|i: int| 0 <= i < spans.len() && (#[trigger] spans[i]) is Ip,
    decreases spans.len(),
{
    let d = spans.drop_last();
    if spans.last().net() is Some {
        assert(spans[spans.len() - 1] is Ip);
    } else {
        lemma_span_nets_from_ip(d);
        let i = choose|i: int| 0 <= i < d.len() && (#[trigger] d[i]) is Ip;
        assert(spans[i] == d[i]);
    }
}

/// `runs` is a decomposition into maximal runs: every run is non-empty, its
/// characters are all of its class, and neighbouring runs differ in class.
pub open spec fn valid_runs(runs: Seq<(bool, Seq<char>)>) -> bool {
    &&& forall|i: int| 0 <= i < runs.len() ==> (#[trigger] runs[i]).1.len() > 0
    &&& forall|i: int, j: int|
        0 <= i < runs.len() && 0 <= j < runs[i].1.len() ==> cidr_char(#[trigger] runs[i].1[j])
            == runs[i].0
    &&& forall|i: int| 0 <= i < runs.len() - 1 ==> (#[trigger] runs[i]).0 != runs[i + 1].0
}

/// The decomposition into maximal runs is unique: a valid decomposition of
/// a text is the one `runs_of` gives.
pub proof fn lemma_runs_of_valid(runs: Seq<(bool, Seq<char>)>)
    requires
        valid_runs(runs),
    ensures
        runs_of(runs_text(runs)) == runs,
    decreases runs.len(),
{
    if runs.len() == 0 {
        assert(runs_of(runs_text(runs)) =~= runs);
    } else {
        let r0 = runs[0];
        let rest = runs.drop_first();
        assert forall|i: int| 0 <= i < rest.len() implies (#[trigger] rest[i]).1.len() > 0 by {
            assert(rest[i] == runs[i + 1]);
        }
        assert forall|i: int, j: int| 0 <= i < rest.len() && 0 <= j < rest[i].1.len() implies cidr_char(
            #[trigger] rest[i].1[j],
        ) == rest[i].0 by {
            assert(rest[i] == runs[i + 1]);
        }
        assert forall|i: int| 0 <= i < rest.len() - 1 implies (#[trigger] rest[i]).0 != rest[i + 1].0 by {
            assert(rest[i] == runs[i + 1] && rest[i + 1] == runs[i + 2]);
        }
        lemma_runs_of_valid(rest);
        let s = runs_text(runs);
        let rt = runs_text(rest);
        assert(s == r0.1 + rt);
        let k = r0.1.len();
        let c = r0.0;
        assert(r0.1[0] == s[0]);
        assert(cidr_char(r0.1[0]) == c);
        assert forall|i: int| 0 <= i < k implies cidr_char(#[trigger] s[i]) == c by {
            assert(s[i] == r0.1[i]);
        }
        if k < s.len() {
            assert(rest.len() > 0);
            assert(rest[0] == runs[1]);
            assert(rt == rest[0].1 + runs_text(rest.drop_first()));
            assert(s[k as int] == rest[0].1[0]);
            assert(cidr_char(rest[0].1[0]) == rest[0].0);
        }
        lemma_run_len_at(s, c, k as int);
        assert(s.take(k as int) =~= r0.1);
        assert(s.skip(k as int) =~= rt);
        assert(runs_of(s) == seq![(c, s.take(k as int))] + runs_of(s.skip(k as int)));
        assert(seq![r0] + rest =~= runs);
    }
}

} // verus!
