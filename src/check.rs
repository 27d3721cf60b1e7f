use crate::format::append_bytes;
use crate::normalize::{push_char, string_of};
use crate::slug::{decimal, push_decimal};
use vstd::prelude::*;
use vstd::string::*;
use vstd::utf8::*;

verus! {

/// One line of a line diff between an expected and a resulting text.
pub enum LineChange {
    /// Only in the first text given (`expected` in `make_diff`).
    Left(String),
    /// In both texts.
    Both(String),
    /// Only in the second text given (`actual` in `make_diff`).
    Right(String),
}

/// The line diff of two texts, as the `diff` crate computes it: it depends on the texts
/// alone.
pub uninterp spec fn line_changes(left: Seq<char>, right: Seq<char>) -> Seq<LineChange>;

/// Relies on `diff::lines` for the line diff of `left` and `right`.
#[verifier::external_body]
fn diff_lines(left: &str, right: &str) -> (r: Vec<LineChange>)
    ensures
        r@ == line_changes(left@, right@),
{
    diff::lines(left, right).into_iter().map(|change| match change {
        diff::Result::Left(line) => LineChange::Left(line.to_owned()),
        diff::Result::Both(line, _) => LineChange::Both(line.to_owned()),
        diff::Result::Right(line) => LineChange::Right(line.to_owned()),
    }).collect()
}

/// A line of a mismatch report.
#[derive(Debug, PartialEq)]
pub enum DiffLine {
    Context(String),
    Expected(String),
    Resulting(String),
}

/// A run of differing lines with its context, and the line of the resulting text where it
/// begins.
#[derive(Debug, PartialEq)]
pub struct Mismatch {
    pub line_number_orig: u32,
    pub lines: Vec<DiffLine>,
}

pub ghost enum DiffLineModel {
    Context(Seq<char>),
    Expected(Seq<char>),
    Resulting(Seq<char>),
}

pub ghost struct MismatchModel {
    pub line: int,
    pub lines: Seq<DiffLineModel>,
}

pub open spec fn line_model(l: DiffLine) -> DiffLineModel {
    match l {
        DiffLine::Context(s) => DiffLineModel::Context(s@),
        DiffLine::Expected(s) => DiffLineModel::Expected(s@),
        DiffLine::Resulting(s) => DiffLineModel::Resulting(s@),
    }
}

pub open spec fn mismatch_model(m: Mismatch) -> MismatchModel {
    MismatchModel { line: m.line_number_orig as int, lines: m.lines@.map_values(|l: DiffLine| line_model(l)) }
}

pub open spec fn mismatch_models(ms: Seq<Mismatch>) -> Seq<MismatchModel> {
    ms.map_values(|m: Mismatch| mismatch_model(m))
}

/// Where the walk over a line diff stands: the finished mismatches, the open one, the
/// unchanged lines held back as leading context, the current line of the resulting text,
/// and how many unchanged lines followed the last change, counted up to `context + 1`.
pub ghost struct DiffWalk {
    pub done: Seq<MismatchModel>,
    pub current: MismatchModel,
    pub queue: Seq<Seq<char>>,
    pub line: int,
    pub since: int,
}

pub open spec fn walk_start(context: int) -> DiffWalk {
    DiffWalk {
        done: seq![],
        current: MismatchModel { line: 0, lines: seq![] },
        queue: seq![],
        line: 1,
        since: context + 1,
    }
}

/// A change closes the open mismatch where at least `context` unchanged lines came
/// between, and opens one that begins at the held-back context.
pub open spec fn walk_change(w: DiffWalk, context: int, line: DiffLineModel) -> DiffWalk {
    let w1 = if w.since >= context && w.since > 0 {
        DiffWalk {
            done: w.done.push(w.current),
            current: MismatchModel {
                line: if w.queue.len() < w.line { w.line - w.queue.len() } else { 0 },
                lines: seq![],
            },
            ..w
        }
    } else {
        w
    };
    DiffWalk {
        current: MismatchModel {
            lines: w1.current.lines + w1.queue.map_values(|s: Seq<char>| DiffLineModel::Context(s))
                + seq![line],
            ..w1.current
        },
        queue: seq![],
        since: 0,
        ..w1
    }
}

pub open spec fn next_line(line: int) -> int {
    if line < u32::MAX {
        line + 1
    } else {
        line
    }
}

/// An unchanged line is trailing context while fewer than `context` unchanged lines
/// followed the last change; else it is held back, keeping the last `context` of them.
pub open spec fn walk_same(w: DiffWalk, context: int, text: Seq<char>) -> DiffWalk {
    let q = if w.queue.len() >= context && w.queue.len() > 0 {
        w.queue.drop_first()
    } else {
        w.queue
    };
    DiffWalk {
        current: if w.since < context {
            MismatchModel { lines: w.current.lines.push(DiffLineModel::Context(text)), ..w.current }
        } else {
            w.current
        },
        queue: if w.since < context {
            q
        } else if context > 0 {
            q.push(text)
        } else {
            q
        },
        line: next_line(w.line),
        since: if w.since < context + 1 {
            w.since + 1
        } else {
            w.since
        },
        ..w
    }
}

pub open spec fn walk_step(w: DiffWalk, context: int, c: LineChange) -> DiffWalk {
    match c {
        LineChange::Left(s) => {
            let w1 = walk_change(w, context, DiffLineModel::Resulting(s@));
            DiffWalk { line: next_line(w1.line), ..w1 }
        },
        LineChange::Right(s) => walk_change(w, context, DiffLineModel::Expected(s@)),
        LineChange::Both(s) => walk_same(w, context, s@),
    }
}

pub open spec fn walk(changes: Seq<LineChange>, context: int) -> DiffWalk
    decreases changes.len(),
{
    if changes.len() == 0 {
        walk_start(context)
    } else {
        walk_step(walk(changes.drop_last(), context), context, changes.last())
    }
}

/// The mismatches of a line diff with `context` lines of context around each change.
pub open spec fn mismatches_of(changes: Seq<LineChange>, context: int) -> Seq<MismatchModel> {
    let w = walk(changes, context);
    w.done.push(w.current).drop_first()
}

impl Mismatch {
    pub fn new(line_number_orig: u32) -> (r: Mismatch)
        ensures
            mismatch_model(r) == (MismatchModel { line: line_number_orig as int, lines: seq![] }),
    {
        let r = Mismatch { line_number_orig, lines: Vec::new() };
        assert(mismatch_model(r).lines =~= seq![]);
        r
    }
}

fn copy_string(s: &String) -> (r: String)
    ensures
        r@ == s@,
{
    s.clone()
}

pub open spec fn queue_model(q: Seq<String>) -> Seq<Seq<char>> {
    q.map_values(|s: String| s@)
}

/// The walk over a line diff, as the values `make_diff` keeps.
struct DiffWalker {
    results: Vec<Mismatch>,
    mismatch: Mismatch,
    context_queue: Vec<String>,
    line_number_orig: u32,
    lines_since_mismatch: usize,
}

impl DiffWalker {
    spec fn model(&self) -> DiffWalk {
        DiffWalk {
            done: mismatch_models(self.results@),
            current: mismatch_model(self.mismatch),
            queue: queue_model(self.context_queue@),
            line: self.line_number_orig as int,
            since: self.lines_since_mismatch as int,
        }
    }

    fn change(&mut self, context_size: usize, line: DiffLine)
        requires
            context_size < usize::MAX,
        ensures
            final(self).model() == walk_change(old(self).model(), context_size as int, line_model(line)),
    {
        let ghost w = self.model();
        if self.lines_since_mismatch >= context_size && self.lines_since_mismatch > 0 {
            let q = self.context_queue.len();
            let start = if q < self.line_number_orig as usize {
                self.line_number_orig - q as u32
            } else {
                0
            };
            let ghost before = mismatch_models(self.results@);
            let ghost finished = mismatch_model(self.mismatch);
            let mut done = Mismatch::new(start);
            core::mem::swap(&mut self.mismatch, &mut done);
            self.results.push(done);
            assert(mismatch_models(self.results@) =~= before.push(finished));
        }
        let ghost w1 = self.model();
        assert(w1.queue == w.queue);
        assert(w1.current == (if w.since >= context_size && w.since > 0 {
            MismatchModel {
                line: if w.queue.len() < w.line { w.line - w.queue.len() } else { 0 },
                lines: seq![],
            }
        } else {
            w.current
        }));
        let ghost lines_before = mismatch_model(self.mismatch).lines;
        let mut k: usize = 0;
        while k < self.context_queue.len()
            invariant
                k <= self.context_queue@.len(),
                self.context_queue@ == old(self).context_queue@,
                self.model().done == w1.done,
                self.model().line == w1.line,
                self.model().since == w1.since,
                self.mismatch.line_number_orig as int == w1.current.line,
                mismatch_model(self.mismatch).lines == lines_before + queue_model(
                    self.context_queue@.subrange(0, k as int),
                ).map_values(|s: Seq<char>| DiffLineModel::Context(s)),
            decreases self.context_queue@.len() - k,
        {
            let ghost prev = mismatch_model(self.mismatch).lines;
            let text = copy_string(&self.context_queue[k]);
            self.mismatch.lines.push(DiffLine::Context(text));
            assert(mismatch_model(self.mismatch).lines =~= prev.push(DiffLineModel::Context(text@)));
            k += 1;
            assert(queue_model(self.context_queue@.subrange(0, k as int)).map_values(
                |s: Seq<char>| DiffLineModel::Context(s),
            ) =~= queue_model(self.context_queue@.subrange(0, k - 1)).map_values(
                |s: Seq<char>| DiffLineModel::Context(s),
            ).push(DiffLineModel::Context(text@)));
        }
        assert(self.context_queue@.subrange(0, self.context_queue@.len() as int) =~= self.context_queue@);
        self.context_queue = Vec::new();
        let ghost prev = mismatch_model(self.mismatch).lines;
        let ghost added = line_model(line);
        self.mismatch.lines.push(line);
        assert(mismatch_model(self.mismatch).lines =~= prev.push(added));
        self.lines_since_mismatch = 0;
        assert(queue_model(self.context_queue@) =~= Seq::<Seq<char>>::empty());
        let ghost spec_w = walk_change(w, context_size as int, added);
        assert(self.model().current.line == spec_w.current.line);
        assert(self.model().current.lines =~= spec_w.current.lines);
    }

    fn same(&mut self, context_size: usize, text: &String)
        requires
            context_size < usize::MAX,
            old(self).lines_since_mismatch <= context_size + 1,
        ensures
            final(self).model() == walk_same(old(self).model(), context_size as int, text@),
            final(self).lines_since_mismatch <= context_size + 1,
    {
        let ghost w = self.model();
        if self.context_queue.len() >= context_size && self.context_queue.len() > 0 {
            let ghost q = queue_model(self.context_queue@);
            self.context_queue.remove(0);
            assert(queue_model(self.context_queue@) =~= q.drop_first());
        }
        if self.lines_since_mismatch < context_size {
            let ghost prev = mismatch_model(self.mismatch).lines;
            self.mismatch.lines.push(DiffLine::Context(copy_string(text)));
            assert(mismatch_model(self.mismatch).lines =~= prev.push(DiffLineModel::Context(text@)));
        } else if context_size > 0 {
            let ghost q = queue_model(self.context_queue@);
            self.context_queue.push(copy_string(text));
            assert(queue_model(self.context_queue@) =~= q.push(text@));
        }
        if self.line_number_orig < u32::MAX {
            self.line_number_orig = self.line_number_orig + 1;
        }
        if self.lines_since_mismatch < context_size + 1 {
            self.lines_since_mismatch = self.lines_since_mismatch + 1;
        }
        assert(self.model().current =~~= walk_same(w, context_size as int, text@).current);
    }
}

/// The mismatches between `expected` and `actual`, each with up to `context_size` lines of
/// unchanged context before and after its changes.
pub fn make_diff(expected: &str, actual: &str, context_size: usize) -> (r: Vec<Mismatch>)
    requires
        context_size < usize::MAX,
    ensures
        mismatch_models(r@) == mismatches_of(line_changes(expected@, actual@), context_size as int),
{
    let changes = diff_lines(expected, actual);
    let ghost ctx = context_size as int;
    let mut w = DiffWalker {
        results: Vec::new(),
        mismatch: Mismatch::new(0),
        context_queue: Vec::new(),
        line_number_orig: 1,
        lines_since_mismatch: context_size + 1,
    };
    assert(w.model().done =~= seq![]);
    assert(queue_model(w.context_queue@) =~= seq![]);
    assert(changes@.subrange(0, 0) =~= Seq::<LineChange>::empty());
    let mut i: usize = 0;
    while i < changes.len()
        invariant
            i <= changes@.len(),
            w.model() == walk(changes@.subrange(0, i as int), ctx),
            w.lines_since_mismatch <= context_size + 1,
            ctx == context_size,
            context_size < usize::MAX,
        decreases changes@.len() - i,
    {
        assert(changes@.subrange(0, i + 1).drop_last() =~= changes@.subrange(0, i as int));
        match &changes[i] {
            LineChange::Left(s) => {
                w.change(context_size, DiffLine::Resulting(copy_string(s)));
                if w.line_number_orig < u32::MAX {
                    w.line_number_orig = w.line_number_orig + 1;
                }
            },
            LineChange::Both(s) => {
                w.same(context_size, s);
            },
            LineChange::Right(s) => {
                w.change(context_size, DiffLine::Expected(copy_string(s)));
            },
        }
        i += 1;
    }
    assert(changes@.subrange(0, changes@.len() as int) =~= changes@);
    let DiffWalker { mut results, mismatch, .. } = w;
    let ghost all = mismatch_models(results@).push(mismatch_model(mismatch));
    results.push(mismatch);
    assert(mismatch_models(results@) =~= all);
    results.remove(0);
    assert(mismatch_models(results@) =~= all.drop_first());
    results
}

/// A report line: a space before context, `+` before expected text, `-` before resulting
/// text, and a line feed after it.
pub open spec fn diff_line_text(l: DiffLineModel) -> Seq<char> {
    match l {
        DiffLineModel::Context(s) => seq![' '] + s + seq!['\n'],
        DiffLineModel::Expected(s) => seq!['+'] + s + seq!['\n'],
        DiffLineModel::Resulting(s) => seq!['-'] + s + seq!['\n'],
    }
}

pub open spec fn lines_text(ls: Seq<DiffLineModel>) -> Seq<char>
    decreases ls.len(),
{
    if ls.len() == 0 {
        seq![]
    } else {
        lines_text(ls.drop_last()) + diff_line_text(ls.last())
    }
}

/// The report of one mismatch: a heading line naming the source and the line, then its lines.
pub open spec fn mismatch_text(source: Seq<char>, m: MismatchModel) -> Seq<char> {
    "Diff in "@ + source + " at line "@ + decimal(m.line as nat) + ":\n"@ + lines_text(m.lines)
}

pub open spec fn report_text(source: Seq<char>, ms: Seq<MismatchModel>) -> Seq<char>
    decreases ms.len(),
{
    if ms.len() == 0 {
        seq![]
    } else {
        report_text(source, ms.drop_last()) + mismatch_text(source, ms.last())
    }
}

fn push_mismatch(out: &mut String, source: &str, m: &Mismatch)
    ensures
        final(out)@ == old(out)@ + mismatch_text(source@, mismatch_model(*m)),
{
    let ghost start = out@;
    out.append("Diff in ");
    out.append(source);
    out.append(" at line ");
    let mut digits: Vec<char> = Vec::new();
    push_decimal(&mut digits, m.line_number_orig as usize);
    let number = string_of(&digits);
    out.append(number.as_str());
    out.append(":\n");
    let ghost head = out@;
    assert(head =~= start + "Diff in "@ + source@ + " at line "@ + decimal(m.line_number_orig as nat) + ":\n"@);
    let ghost lines = mismatch_model(*m).lines;
    let mut i: usize = 0;
    while i < m.lines.len()
        invariant
            i <= m.lines@.len(),
            lines == mismatch_model(*m).lines,
            out@ == head + lines_text(lines.subrange(0, i as int)),
        decreases m.lines@.len() - i,
    {
        let (mark, text) = match &m.lines[i] {
            DiffLine::Context(t) => (' ', t),
            DiffLine::Expected(t) => ('+', t),
            DiffLine::Resulting(t) => ('-', t),
        };
        push_char(out, mark);
        out.append(text.as_str());
        push_char(out, '\n');
        assert(lines.subrange(0, i + 1).drop_last() =~= lines.subrange(0, i as int));
        assert(lines[i as int] == line_model(m.lines@[i as int]));
        assert(out@ =~= head + lines_text(lines.subrange(0, i + 1)));
        i += 1;
    }
    assert(lines.subrange(0, lines.len() as int) =~= lines);
}

/// Writes a report of the mismatches between `expected` and `actual`, with three lines of
/// context, naming `source` in the heading of each.
pub fn write_diff(expected: &str, actual: &str, source: &str, out: &mut Vec<u8>)
    ensures
        final(out)@ == old(out)@ + encode_utf8(
            report_text(source@, mismatches_of(line_changes(expected@, actual@), 3)),
        ),
{
    let diff = make_diff(expected, actual, 3);
    let ghost ms = mismatch_models(diff@);
    let mut text = String::new();
    let mut i: usize = 0;
    while i < diff.len()
        invariant
            i <= diff@.len(),
            ms == mismatch_models(diff@),
            text@ == report_text(source@, ms.subrange(0, i as int)),
        decreases diff@.len() - i,
    {
        push_mismatch(&mut text, source, &diff[i]);
        assert(ms.subrange(0, i + 1).drop_last() =~= ms.subrange(0, i as int));
        i += 1;
    }
    assert(ms.subrange(0, ms.len() as int) =~= ms);
    append_bytes(out, text.as_str().as_bytes());
}

} // verus!
