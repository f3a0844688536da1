//! The whole run over the input lines: classification, the arrangement
//! chosen by the options (inline or block sorting, aggregation,
//! deduplication), rendering, and the comparison that `--check` makes.

use crate::blocks::aggregate::{aggregate_blocks, aggregate_model, AggregateError};
use crate::blocks::{
    blocks_sorted, deduplicate_blocks, dedup_model, lemma_sort_blocks_fixes_sorted, sort_blocks,
    sort_blocks_model, sort_inline, sort_inline_model, DeduplicateError,
};
use crate::classify::{
    classify_line, classify_model, lines_view, lines_wf, text_warnings, warnings_of, ClassifiedLine,
    LineView,
};
use crate::output::{render_line, render_model, IpsOnlyMode, OutputOptions};
use crate::parse::Net;
use crate::sort::SortOptions;
use vstd::prelude::*;

verus! {

/// The choices of a run: how to sort, how to render, and which of the
/// unique, inline and aggregate stages apply.
#[derive(Clone, Copy, Debug, PartialEq, Eq, Structural)]
pub struct RunOptions {
    /// The sort order.
    pub sort: SortOptions,
    /// The rendering options.
    pub output: OutputOptions,
    /// Remove duplicate IPs.
    pub unique: bool,
    /// Sort all IPs of the input as one pool.
    pub inline: bool,
    /// Merge CIDRs into their minimal supernets.
    pub aggregate: bool,
}

/// Why arranging the lines failed.
#[derive(Debug)]
pub enum ArrangeError {
    /// Aggregation would merge an IP of a line with several IPs.
    Aggregate(AggregateError),
    /// Deduplication met a seen IP on a line with several IPs.
    Deduplicate(DeduplicateError),
}

/// The value of an [`ArrangeError`]: which stage failed, on which line text
/// and network.
pub enum ArrangeErrorView {
    Aggregate(Seq<char>, Net),
    Deduplicate(Seq<char>, Net),
}

impl View for ArrangeError {
    type V = ArrangeErrorView;

    open spec fn view(&self) -> ArrangeErrorView {
        match self {
            ArrangeError::Aggregate(e) => ArrangeErrorView::Aggregate(e.line@, e.aggregate),
            ArrangeError::Deduplicate(e) => ArrangeErrorView::Deduplicate(e.line@, e.duplicate_ip),
        }
    }
}

/// Every line classified.
pub open spec fn classify_all(lines: Seq<Seq<char>>, opts: SortOptions) -> Seq<LineView> {
    lines.map_values(|l: Seq<char>| classify_model(l, opts))
}

/// Some line holds an IP.
pub open spec fn some_ip(lines: Seq<LineView>) -> bool {
    exists|i: int| 0 <= i < lines.len() && (#[trigger] lines[i]) is HasIp
}

/// The `HasIp` lines of `lines`, in order.
pub open spec fn ip_lines(lines: Seq<LineView>) -> Seq<LineView>
    decreases lines.len(),
{
    if lines.len() == 0 {
        seq![]
    } else if lines.last() is HasIp {
        ip_lines(lines.drop_last()).push(lines.last())
    } else {
        ip_lines(lines.drop_last())
    }
}

/// The lines that are arranged: in the flat ips-only mode, which discards
/// `NoIp` lines, only the `HasIp` lines, so that the whole input is one
/// pool; otherwise all of them.
pub open spec fn arranged_input(lines: Seq<LineView>, o: RunOptions) -> Seq<LineView> {
    if o.output.ips_only == IpsOnlyMode::Flat {
        ip_lines(lines)
    } else {
        lines
    }
}

/// The lines arranged as the options ask: inline sorting (with `unique`
/// applied to the pool); or block sorting followed by aggregation, or else
/// by deduplication under `unique`.
pub open spec fn arrange_model(input: Seq<LineView>, o: RunOptions) -> Result<
    Seq<LineView>,
    ArrangeErrorView,
> {
    let lines = arranged_input(input, o);
    if o.inline {
        Ok(sort_inline_model(lines, o.sort, o.unique))
    } else {
        let sorted = sort_blocks_model(lines, o.sort);
        if o.aggregate {
            match aggregate_model(sorted, o.sort) {
                Ok(a) => Ok(a),
                Err((l, n)) => Err(ArrangeErrorView::Aggregate(l, n)),
            }
        } else if o.unique {
            match dedup_model(sorted, o.output.ips_only) {
                Ok(d) => Ok(d),
                Err((l, n)) => Err(ArrangeErrorView::Deduplicate(l, n)),
            }
        } else {
            Ok(sorted)
        }
    }
}

/// With no stage besides block sorting, lines already in order within their
/// blocks come out of the arrangement unchanged, so that a check of them
/// finds the rendered input and result equal.
pub proof fn lemma_arrange_keeps_sorted(lines: Seq<LineView>, o: RunOptions)
    requires
        !o.inline,
        !o.aggregate,
        !o.unique,
        o.output.ips_only != IpsOnlyMode::Flat,
        blocks_sorted(lines, o.sort),
    ensures
        arrange_model(lines, o) == Ok::<Seq<LineView>, ArrangeErrorView>(lines),
{
    lemma_sort_blocks_fixes_sorted(lines, o.sort);
}

/// The rendered strings of all lines, in order.
pub open spec fn render_all(lines: Seq<LineView>, out: OutputOptions, sort: SortOptions) -> Seq<
    Seq<char>,
>
    decreases lines.len(),
{
    if lines.len() == 0 {
        seq![]
    } else {
        render_all(lines.drop_last(), out, sort) + render_model(lines.last(), out, sort)
    }
}

/// The outcome of comparing the rendered input with the rendered result.
#[derive(Debug, PartialEq, Eq)]
pub enum CheckOutcome {
    /// The two agree: the input is already in the requested state.
    Unchanged,
    /// The first position (counted from 1) where they differ, with the
    /// input's string there.
    OutOfOrder { line: usize, text: String },
    /// They agree as far as both go but differ in length.
    LengthDiffers { input: usize, output: usize },
}

/// Classifies every line of the input.
pub fn classify_lines(lines: &Vec<String>, opts: &SortOptions) -> (r: Vec<ClassifiedLine>)
    ensures
        lines_view(r@) == classify_all(lines@.map_values(|s: String| s@), *opts),
        lines_wf(lines_view(r@)),
{
    let ghost texts = lines@.map_values(|s: String| s@);
    let mut r: Vec<ClassifiedLine> = Vec::new();
    let mut i: usize = 0;
    while i < lines.len()
        invariant
            i <= lines@.len(),
            texts == lines@.map_values(|s: String| s@),
            lines_view(r@) == classify_all(texts.take(i as int), *opts),
            lines_wf(lines_view(r@)),
        decreases lines@.len() - i,
    {
        let c = classify_line(lines[i].as_str(), opts);
        let ghost rv = lines_view(r@);
        r.push(c);
        proof {
            assert(lines_view(r@) =~= rv.push(c@));
            assert(classify_all(texts.take(i + 1), *opts) =~= classify_all(texts.take(i as int), *opts).push(
                classify_model(texts[i as int], *opts),
            ));
            let nv = lines_view(r@);
            assert forall|k: int| 0 <= k < nv.len() implies (#[trigger] nv[k]).wf() by {
                if k < rv.len() {
                    assert(nv[k] == rv[k]);
                }
            }
        }
        i = i + 1;
    }
    proof {
        assert(texts.take(lines@.len() as int) =~= texts);
    }
    r
}

/// Whether some line holds an IP.
pub fn has_any_ip(lines: &Vec<ClassifiedLine>) -> (r: bool)
    ensures
        r == some_ip(lines_view(lines@)),
{
    let ghost lv = lines_view(lines@);
    let mut i: usize = 0;
    while i < lines.len()
        invariant
            i <= lines@.len(),
            lv == lines_view(lines@),
            forall|k: int| 0 <= k < i ==> (#[trigger] lv[k]) is NoIp,
        decreases lines@.len() - i,
    {
        match &lines[i] {
            ClassifiedLine::HasIp { .. } => {
                assert(lv[i as int] is HasIp);
                return true;
            },
            ClassifiedLine::NoIp(_) => {},
        }
        i = i + 1;
    }
    false
}

/// The `HasIp` lines of `lines`, in order.
fn keep_ip_lines(lines: Vec<ClassifiedLine>) -> (r: Vec<ClassifiedLine>)
    requires
        lines_wf(lines_view(lines@)),
    ensures
        lines_view(r@) == ip_lines(lines_view(lines@)),
        lines_wf(lines_view(r@)),
{
    let ghost lv = lines_view(lines@);
    let mut r: Vec<ClassifiedLine> = Vec::new();
    for line in it: lines
        invariant
            lv == lines_view(it.seq()),
            lines_wf(lv),
            lines_view(r@) == ip_lines(lv.take(it.index())),
            lines_wf(lines_view(r@)),
    {
        proof {
            assert(lv[it.index()] == line@);
            assert(lv.take(it.index() + 1).drop_last() =~= lv.take(it.index()));
            assert(lv.take(it.index() + 1).last() == line@);
        }
        let ghost rv = lines_view(r@);
        match line {
            ClassifiedLine::HasIp { .. } => {
                r.push(line);
                proof {
                    assert(lines_view(r@) =~= rv.push(line@));
                    crate::blocks::lemma_lines_wf_push(rv, line@);
                }
            },
            ClassifiedLine::NoIp(_) => {},
        }
    }
    proof {
        assert(lv.take(lv.len() as int) =~= lv);
    }
    r
}

/// Arranges classified lines as the options ask: inline sorting, or block
/// sorting followed by aggregation or deduplication. In the flat ips-only
/// mode the `NoIp` lines are left out first, so that the whole input is one
/// block.
pub fn arrange(lines: Vec<ClassifiedLine>, o: &RunOptions) -> (r: Result<
    Vec<ClassifiedLine>,
    ArrangeError,
>)
    requires
        lines_wf(lines_view(lines@)),
    ensures
        match r {
            Ok(v) => arrange_model(lines_view(lines@), *o) == Ok::<Seq<LineView>, ArrangeErrorView>(
                lines_view(v@),
            ) && lines_wf(lines_view(v@)),
            Err(e) => arrange_model(lines_view(lines@), *o) == Err::<Seq<LineView>, ArrangeErrorView>(
                e@,
            ),
        },
{
    let lines = match o.output.ips_only {
        IpsOnlyMode::Flat => keep_ip_lines(lines),
        _ => lines,
    };
    if o.inline {
        Ok(sort_inline(lines, &o.sort, o.unique))
    } else {
        let sorted = sort_blocks(lines, &o.sort);
        if o.aggregate {
            match aggregate_blocks(sorted, &o.sort) {
                Ok(v) => Ok(v),
                Err(e) => Err(ArrangeError::Aggregate(e)),
            }
        } else if o.unique {
            match deduplicate_blocks(sorted, &o.output.ips_only) {
                Ok(v) => Ok(v),
                Err(e) => Err(ArrangeError::Deduplicate(e)),
            }
        } else {
            Ok(sorted)
        }
    }
}

/// Renders every line and gathers the strings in order.
pub fn render_lines(lines: &Vec<ClassifiedLine>, out: &OutputOptions, sort: &SortOptions) -> (r: Vec<
    String,
>)
    requires
        lines_wf(lines_view(lines@)),
    ensures
        r@.map_values(|s: String| s@) == render_all(lines_view(lines@), *out, *sort),
{
    let ghost lv = lines_view(lines@);
    let mut r: Vec<String> = Vec::new();
    let mut i: usize = 0;
    while i < lines.len()
        invariant
            i <= lines@.len(),
            lv == lines_view(lines@),
            lines_wf(lv),
            r@.map_values(|s: String| s@) == render_all(lv.take(i as int), *out, *sort),
        decreases lines@.len() - i,
    {
        proof {
            assert(lv.take(i + 1).drop_last() =~= lv.take(i as int));
            assert(lv.take(i + 1).last() == lv[i as int]);
            assert(lv[i as int].wf());
        }
        let rendered = render_line(&lines[i], out, sort);
        let ghost r0 = r@.map_values(|s: String| s@);
        let mut j: usize = 0;
        while j < rendered.len()
            invariant
                j <= rendered@.len(),
                r@.map_values(|s: String| s@) == r0 + rendered@.map_values(|s: String| s@).take(j as int),
            decreases rendered@.len() - j,
        {
            let ghost before = r@.map_values(|s: String| s@);
            r.push(rendered[j].clone());
            proof {
                assert(r@.map_values(|s: String| s@) =~= before.push(rendered@[j as int]@));
                assert(rendered@.map_values(|s: String| s@).take(j + 1) =~= rendered@.map_values(
                    |s: String| s@,
                ).take(j as int).push(rendered@[j as int]@));
            }
            j = j + 1;
        }
        proof {
            assert(rendered@.map_values(|s: String| s@).take(rendered@.len() as int) =~= rendered@.map_values(
                |s: String| s@,
            ));
        }
        i = i + 1;
    }
    proof {
        assert(lv.take(lv.len() as int) =~= lv);
    }
    r
}

/// `r` is what comparing `a` (the rendered input) with `b` (the rendered
/// result) gives: the first position where they differ, else whether their
/// lengths differ, else that they agree.
pub open spec fn check_holds(r: CheckOutcome, a: Seq<Seq<char>>, b: Seq<Seq<char>>) -> bool {
    match r {
        CheckOutcome::Unchanged => a == b,
        CheckOutcome::OutOfOrder { line, text } => {
            &&& 1 <= line <= a.len()
            &&& line <= b.len()
            &&& text@ == a[line - 1]
            &&& a[line - 1] != b[line - 1]
            &&& forall|k: int| 0 <= k < line - 1 ==> #[trigger] a[k] == b[k]
        },
        CheckOutcome::LengthDiffers { input, output } => {
            &&& input == a.len()
            &&& output == b.len()
            &&& input != output
            &&& forall|k: int| 0 <= k < input && k < output ==> #[trigger] a[k] == b[k]
        },
    }
}

/// Compares the rendered input with the rendered result: the first
/// position where they differ, else whether their lengths differ.
pub fn check_order(input: &Vec<String>, output: &Vec<String>) -> (r: CheckOutcome)
    ensures
        check_holds(r, input@.map_values(|s: String| s@), output@.map_values(|s: String| s@)),
{
    let mut i: usize = 0;
    while i < input.len() && i < output.len()
        invariant
            i <= input@.len(),
            i <= output@.len(),
            forall|k: int| 0 <= k < i ==> (#[trigger] input@[k])@ == output@[k]@,
        decreases input@.len() - i,
    {
        if input[i] != output[i] {
            proof {
                let a = input@.map_values(|s: String| s@);
                let b = output@.map_values(|s: String| s@);
                assert forall|k: int| 0 <= k < i implies #[trigger] a[k] == b[k] by {
                    assert(input@[k]@ == output@[k]@);
                }
            }
            return CheckOutcome::OutOfOrder { line: i + 1, text: input[i].clone() };
        }
        i = i + 1;
    }
    if input.len() != output.len() {
        proof {
            let a = input@.map_values(|s: String| s@);
            let b = output@.map_values(|s: String| s@);
            assert forall|k: int| 0 <= k < a.len() && k < b.len() implies #[trigger] a[k] == b[k] by {
                assert(input@[k]@ == output@[k]@);
            }
        }
        CheckOutcome::LengthDiffers { input: input.len(), output: output.len() }
    } else {
        proof {
            assert(input@.map_values(|s: String| s@) =~= output@.map_values(|s: String| s@));
        }
        CheckOutcome::Unchanged
    }
}


/// A line of the result as it is emitted: its warnings, for the error
/// stream, and its rendered strings.
pub struct EmittedLine {
    /// The warnings of the line.
    pub warnings: Vec<String>,
    /// The strings the line renders to.
    pub rendered: Vec<String>,
}

/// The outcome of a whole run.
pub enum RunResult {
    /// No line of the input holds an IP.
    NoIpFound,
    /// Arranging the lines failed.
    Failed(ArrangeError),
    /// The comparison that a check asks for, of the rendered input with the
    /// rendered result.
    Checked(CheckOutcome),
    /// The lines to emit, in order.
    Emitted(Vec<EmittedLine>),
}

/// The warnings a line carries.
pub open spec fn line_warnings(l: LineView) -> Seq<Seq<char>> {
    match l {
        LineView::HasIp { warnings, .. } => warnings,
        LineView::NoIp(s) => warnings_of(s),
    }
}

/// The `NoIp` lines of `lines`, in order.
pub open spec fn no_ip_lines(lines: Seq<LineView>) -> Seq<LineView>
    decreases lines.len(),
{
    if lines.len() == 0 {
        seq![]
    } else if lines.last() is NoIp {
        no_ip_lines(lines.drop_last()).push(lines.last())
    } else {
        no_ip_lines(lines.drop_last())
    }
}

/// The lines whose warnings and renderings a run emits: the arranged lines
/// `arranged`, preceded in the flat ips-only mode by the `NoIp` lines of the
/// input `input` (which render to nothing there, but whose warnings are
/// still given).
pub open spec fn shown_lines(input: Seq<LineView>, arranged: Seq<LineView>, o: RunOptions) -> Seq<
    LineView,
> {
    if o.output.ips_only == IpsOnlyMode::Flat {
        no_ip_lines(input) + arranged
    } else {
        arranged
    }
}

/// `v` emits `lines`: one entry per line, with the line's warnings and its
/// rendered strings.
pub open spec fn emits(v: Seq<EmittedLine>, lines: Seq<LineView>, o: RunOptions) -> bool {
    &&& v.len() == lines.len()
    &&& forall|i: int|
        0 <= i < v.len() ==> (#[trigger] v[i]).warnings@.map_values(|s: String| s@) == line_warnings(lines[i])
            && v[i].rendered@.map_values(|s: String| s@) == render_model(lines[i], o.output, o.sort)
}

/// The warnings of a line, copied.
fn warnings_of_line(line: &ClassifiedLine) -> (r: Vec<String>)
    ensures
        r@.map_values(|s: String| s@) == line_warnings(line@),
{
    let mut r: Vec<String> = Vec::new();
    match line {
        ClassifiedLine::HasIp { warnings, .. } => {
            let mut i: usize = 0;
            while i < warnings.len()
                invariant
                    i <= warnings@.len(),
                    r@.map_values(|s: String| s@) == warnings@.map_values(|s: String| s@).take(i as int),
                decreases warnings@.len() - i,
            {
                let ghost before = r@.map_values(|s: String| s@);
                r.push(warnings[i].clone());
                proof {
                    assert(r@.map_values(|s: String| s@) =~= before.push(warnings@[i as int]@));
                    assert(warnings@.map_values(|s: String| s@).take(i + 1) =~= warnings@.map_values(
                        |s: String| s@,
                    ).take(i as int).push(warnings@[i as int]@));
                }
                i = i + 1;
            }
            proof {
                assert(warnings@.map_values(|s: String| s@).take(warnings@.len() as int) =~= warnings@.map_values(
                    |s: String| s@,
                ));
            }
        },
        ClassifiedLine::NoIp(s) => {
            r = text_warnings(s.as_str());
        },
    }
    r
}

/// The `NoIp` lines of `lines`, in order.
fn keep_no_ip_lines(lines: Vec<ClassifiedLine>) -> (r: Vec<ClassifiedLine>)
    ensures
        lines_view(r@) == no_ip_lines(lines_view(lines@)),
        lines_wf(lines_view(r@)),
{
    let ghost lv = lines_view(lines@);
    let mut r: Vec<ClassifiedLine> = Vec::new();
    for line in it: lines
        invariant
            lv == lines_view(it.seq()),
            lines_view(r@) == no_ip_lines(lv.take(it.index())),
            lines_wf(lines_view(r@)),
    {
        proof {
            assert(lv[it.index()] == line@);
            assert(lv.take(it.index() + 1).drop_last() =~= lv.take(it.index()));
            assert(lv.take(it.index() + 1).last() == line@);
        }
        let ghost rv = lines_view(r@);
        match line {
            ClassifiedLine::NoIp(_) => {
                r.push(line);
                proof {
                    assert(lines_view(r@) =~= rv.push(line@));
                    crate::blocks::lemma_lines_wf_push(rv, line@);
                }
            },
            ClassifiedLine::HasIp { .. } => {},
        }
    }
    proof {
        assert(lv.take(lv.len() as int) =~= lv);
    }
    r
}

/// Each line with its warnings and rendered strings.
fn emit_lines(lines: &Vec<ClassifiedLine>, o: &RunOptions) -> (r: Vec<EmittedLine>)
    requires
        lines_wf(lines_view(lines@)),
    ensures
        emits(r@, lines_view(lines@), *o),
{
    let ghost lv = lines_view(lines@);
    let mut r: Vec<EmittedLine> = Vec::new();
    let mut i: usize = 0;
    while i < lines.len()
        invariant
            i <= lines@.len(),
            lv == lines_view(lines@),
            lines_wf(lv),
            emits(r@, lv.take(i as int), *o),
        decreases lines@.len() - i,
    {
        proof {
            assert(lv[i as int].wf());
        }
        let warnings = warnings_of_line(&lines[i]);
        let rendered = render_line(&lines[i], &o.output, &o.sort);
        let ghost before = r@;
        r.push(EmittedLine { warnings, rendered });
        proof {
            let t = lv.take(i + 1);
            assert forall|k: int| 0 <= k < r@.len() implies (#[trigger] r@[k]).warnings@.map_values(
                |s: String| s@,
            ) == line_warnings(t[k]) && r@[k].rendered@.map_values(|s: String| s@) == render_model(
                t[k],
                o.output,
                o.sort,
            ) by {
                if k < i {
                    assert(r@[k] == before[k]);
                    assert(t[k] == lv.take(i as int)[k]);
                }
            }
        }
        i = i + 1;
    }
    proof {
        assert(lv.take(lv.len() as int) =~= lv);
    }
    r
}

/// The whole run over the input lines: classifies them; fails where none
/// holds an IP; arranges them as the options ask; then either compares the
/// rendered input with the rendered result (`check`) or gives the lines to
/// emit.
pub fn run(lines: &Vec<String>, o: &RunOptions, check: bool) -> (r: RunResult)
    ensures
        ({
            let c = classify_all(lines@.map_values(|s: String| s@), o.sort);
            match r {
                RunResult::NoIpFound => !some_ip(c),
                RunResult::Failed(e) => some_ip(c) && arrange_model(c, *o) == Err::<
                    Seq<LineView>,
                    ArrangeErrorView,
                >(e@),
                RunResult::Checked(co) => check && some_ip(c) && arrange_model(c, *o) is Ok && check_holds(
                    co,
                    render_all(c, o.output, o.sort),
                    render_all(arrange_model(c, *o)->Ok_0, o.output, o.sort),
                ),
                RunResult::Emitted(v) => !check && some_ip(c) && arrange_model(c, *o) is Ok && emits(
                    v@,
                    shown_lines(c, arrange_model(c, *o)->Ok_0, *o),
                    *o,
                ),
            }
        }),
{
    let classified = classify_lines(lines, &o.sort);
    if !has_any_ip(&classified) {
        return RunResult::NoIpFound;
    }
    let unsorted = if check {
        classify_lines(lines, &o.sort)
    } else {
        Vec::new()
    };
    match arrange(classified, o) {
        Err(e) => RunResult::Failed(e),
        Ok(sorted) => {
            if check {
                let before = render_lines(&unsorted, &o.output, &o.sort);
                let after = render_lines(&sorted, &o.output, &o.sort);
                RunResult::Checked(check_order(&before, &after))
            } else {
                match o.output.ips_only {
                    IpsOnlyMode::Flat => {
                        let mut shown = keep_no_ip_lines(classify_lines(lines, &o.sort));
                        let mut sorted = sorted;
                        let ghost sv = lines_view(shown@);
                        let ghost av = lines_view(sorted@);
                        shown.append(&mut sorted);
                        proof {
                            assert(lines_view(shown@) =~= sv + av);
                            let v = lines_view(shown@);
                            assert forall|k: int| 0 <= k < v.len() implies (#[trigger] v[k]).wf() by {
                                if k < sv.len() {
                                    assert(v[k] == sv[k]);
                                } else {
                                    assert(v[k] == av[k - sv.len()]);
                                }
                            }
                        }
                        RunResult::Emitted(emit_lines(&shown, o))
                    },
                    _ => RunResult::Emitted(emit_lines(&sorted, o)),
                }
            }
        },
    }
}

} // verus!
