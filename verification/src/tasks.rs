//! Tasks: Markdown checkbox items (`- [ ] open`, `- [x] done`, `- [-] canceled`).
use vstd::prelude::*;

use crate::lines::{line_spans, lines_of, lemma_lines_count};
use crate::scan::ws_end;
use crate::extract::ExtractFrom;
use crate::text::{chars_of, is_whitespace, string_from};

verus! {

/// Completion status of a task checkbox.
#[derive(Debug, Clone, Copy, PartialEq, Eq, Structural)]
pub enum TaskStatus {
    /// `- [ ]`
    Open,
    /// `- [x]` or `- [X]`
    Done,
    /// `- [-]`
    Canceled,
    /// Any other marker, e.g. `- [>]`.
    Custom(char),
}

/// A task item of a note.
#[derive(Debug, Clone, PartialEq, Eq)]
pub struct Task {
    /// Line number where the task appears, counted from the first line's number.
    pub line: usize,
    pub status: TaskStatus,
    /// The description, without the checkbox marker.
    pub text: String,
}

/// The status a checkbox marker stands for.
pub open spec fn status_of(c: char) -> TaskStatus {
    if c == ' ' {
        TaskStatus::Open
    } else if c == 'x' || c == 'X' {
        TaskStatus::Done
    } else if c == '-' {
        TaskStatus::Canceled
    } else {
        TaskStatus::Custom(c)
    }
}

/// The end of the run of spaces and tabs that starts at `i`.
pub open spec fn indent_end(l: Seq<char>, i: int) -> int
    decreases l.len() - i,
{
    if 0 <= i < l.len() && (l[i] == ' ' || l[i] == '\t') {
        indent_end(l, i + 1)
    } else {
        i
    }
}

/// The task a line holds: indentation of spaces and tabs, `- [`, one marker
/// character, `]`, whitespace, then the description (the rest of the line).
pub open spec fn task_of_line(l: Seq<char>) -> Option<(TaskStatus, Seq<char>)> {
    let i = indent_end(l, 0);
    if i + 5 <= l.len() && l[i] == '-' && l[i + 1] == ' ' && l[i + 2] == '[' && l[i + 3] != '\n'
        && l[i + 4] == ']' {
        Some((status_of(l[i + 3]), l.subrange(ws_end(l, i + 5), l.len() as int)))
    } else {
        None
    }
}

/// The tasks of the lines `ls[k..]`, the line `ls[k]` numbered `first + k`.
pub open spec fn tasks_from(ls: Seq<Seq<char>>, k: int, first: int) -> Seq<(int, TaskStatus, Seq<char>)>
    decreases ls.len() - k,
{
    if k < 0 || k >= ls.len() {
        Seq::empty()
    } else {
        match task_of_line(ls[k]) {
            Some((st, t)) => seq![(first + k, st, t)] + tasks_from(ls, k + 1, first),
            None => tasks_from(ls, k + 1, first),
        }
    }
}

impl View for Task {
    type V = (int, TaskStatus, Seq<char>);

    open spec fn view(&self) -> (int, TaskStatus, Seq<char>) {
        (self.line as int, self.status, self.text@)
    }
}

proof fn lemma_indent_end_bounds(l: Seq<char>, i: int)
    requires
        0 <= i <= l.len(),
    ensures
        i <= indent_end(l, i) <= l.len(),
    decreases l.len() - i,
{
    if i < l.len() && (l[i] == ' ' || l[i] == '\t') {
        lemma_indent_end_bounds(l, i + 1);
    }
}

/// The task of the line `v[lo..hi]`, if it holds one.
fn task_in(v: &Vec<char>, lo: usize, hi: usize) -> (r: Option<(TaskStatus, String)>)
    requires
        lo <= hi <= v.len(),
    ensures
        match r {
            Some((st, t)) => task_of_line(v@.subrange(lo as int, hi as int)) == Some((st, t@)),
            None => task_of_line(v@.subrange(lo as int, hi as int)) is None,
        },
{
    let ghost l = v@.subrange(lo as int, hi as int);
    let mut i = lo;
    while i < hi && (v[i] == ' ' || v[i] == '\t')
        invariant
            lo <= i <= hi <= v.len(),
            l == v@.subrange(lo as int, hi as int),
            indent_end(l, 0) == indent_end(l, i - lo),
        decreases hi - i,
    {
        i = i + 1;
    }
    if !(hi - i >= 5 && v[i] == '-' && v[i + 1] == ' ' && v[i + 2] == '[' && v[i + 3] != '\n'
        && v[i + 4] == ']') {
        return None;
    }
    let marker = v[i + 3];
    let status = if marker == ' ' {
        TaskStatus::Open
    } else if marker == 'x' || marker == 'X' {
        TaskStatus::Done
    } else if marker == '-' {
        TaskStatus::Canceled
    } else {
        TaskStatus::Custom(marker)
    };
    let mut j = i + 5;
    while j < hi && is_whitespace(v[j])
        invariant
            lo <= i + 5 <= j <= hi <= v.len(),
            l == v@.subrange(lo as int, hi as int),
            ws_end(l, i + 5 - lo) == ws_end(l, j - lo),
        decreases hi - j,
    {
        j = j + 1;
    }
    let text = string_from(v, j, hi);
    assert(l.subrange(j - lo, l.len() as int) =~= v@.subrange(j as int, hi as int));
    Some((status, text))
}

impl Task {
    /// The tasks of `content`, the first line numbered `start_line`.
    pub fn extract_from_with_offset(content: &str, start_line: usize) -> (r: Vec<Task>)
        requires
            start_line + lines_of(content@).len() <= usize::MAX + 1,
        ensures
            r@.map_values(|t: Task| t@) == tasks_from(lines_of(content@), 0, start_line as int),
    {
        let v = chars_of(content);
        let spans = line_spans(&v);
        let ghost ls = lines_of(v@);
        let mut out: Vec<Task> = Vec::new();
        let mut k: usize = 0;
        while k < spans.len()
            invariant
                k <= spans@.len() == ls.len(),
                ls == lines_of(v@),
                start_line + ls.len() <= usize::MAX + 1,
                forall|q: int|
                    0 <= q < spans@.len() ==> (#[trigger] spans@[q]).start <= spans@[q].end <= v.len()
                        && v@.subrange(spans@[q].start as int, spans@[q].end as int) == ls[q],
                tasks_from(ls, 0, start_line as int) == out@.map_values(|t: Task| t@) + tasks_from(
                    ls,
                    k as int,
                    start_line as int,
                ),
            decreases spans.len() - k,
        {
            let sp = &spans[k];
            match task_in(&v, sp.start, sp.end) {
                Some((status, text)) => {
                    let ghost before = out@.map_values(|t: Task| t@);
                    out.push(Task { line: start_line + k, status, text });
                    assert(out@.map_values(|t: Task| t@) =~= before.push(((start_line + k) as int, status, text@)));
                },
                None => {},
            }
            k = k + 1;
        }
        assert(out@.map_values(|t: Task| t@) + Seq::empty() =~= out@.map_values(|t: Task| t@));
        out
    }

}

impl ExtractFrom for Task {
    type Output = Vec<Task>;

    /// The tasks of `text`, the first line numbered 1.
    fn extract_from(text: &str) -> (r: Vec<Task>)
        ensures
            r@.map_values(|t: Task| t@) == tasks_from(lines_of(text@), 0, 1),
    {
        let v = chars_of(text);
        proof {
            lemma_lines_count(text@);
            assert(text@.len() == v.len());
        }
        Task::extract_from_with_offset(text, 1)
    }
}


/// A task with its line moved by `d`.
pub open spec fn shift_task(t: (int, TaskStatus, Seq<char>), d: int) -> (int, TaskStatus, Seq<char>) {
    (t.0 + d, t.1, t.2)
}

proof fn lemma_tasks_shift(ls: Seq<Seq<char>>, k: int, first: int, d: int)
    ensures
        tasks_from(ls, k, first + d) == tasks_from(ls, k, first).map_values(
            |t: (int, TaskStatus, Seq<char>)| shift_task(t, d),
        ),
    decreases ls.len() - k,
{
    if 0 <= k < ls.len() {
        lemma_tasks_shift(ls, k + 1, first, d);
        let rest = tasks_from(ls, k + 1, first);
        match task_of_line(ls[k]) {
            Some((st, t)) => {
                assert((seq![(first + k, st, t)] + rest).map_values(
                    |t: (int, TaskStatus, Seq<char>)| shift_task(t, d),
                ) =~= seq![(first + d + k, st, t)] + rest.map_values(
                    |t: (int, TaskStatus, Seq<char>)| shift_task(t, d),
                ));
            },
            None => {},
        }
    } else {
        assert(Seq::<(int, TaskStatus, Seq<char>)>::empty().map_values(
            |t: (int, TaskStatus, Seq<char>)| shift_task(t, d),
        ) =~= Seq::<(int, TaskStatus, Seq<char>)>::empty());
    }
}

proof fn lemma_tasks_lines(ls: Seq<Seq<char>>, k: int, first: int)
    requires
        0 <= k,
    ensures
        forall|i: int|
            0 <= i < tasks_from(ls, k, first).len() ==> first + k <= (#[trigger] tasks_from(ls, k, first)[i]).0 < first
                + ls.len(),
        forall|i: int, j: int|
            0 <= i < j < tasks_from(ls, k, first).len() ==> (#[trigger] tasks_from(ls, k, first)[i]).0 < (
            #[trigger] tasks_from(ls, k, first)[j]).0,
    decreases ls.len() - k,
{
    if k < ls.len() {
        lemma_tasks_lines(ls, k + 1, first);
        let rest = tasks_from(ls, k + 1, first);
        match task_of_line(ls[k]) {
            Some((st, t)) => {
                let all = seq![(first + k, st, t)] + rest;
                assert(tasks_from(ls, k, first) == all);
                assert forall|i: int| 0 <= i < all.len() implies first + k <= (#[trigger] all[i]).0 < first
                    + ls.len() by {
                    if i > 0 {
                        assert(all[i] == rest[i - 1]);
                    }
                }
                assert forall|i: int, j: int| 0 <= i < j < all.len() implies (#[trigger] all[i]).0 < (
                #[trigger] all[j]).0 by {
                    assert(all[j] == rest[j - 1]);
                    if i > 0 {
                        assert(all[i] == rest[i - 1]);
                    }
                }
            },
            None => {},
        }
    }
}

/// Extracting tasks with the first line numbered `start` gives the tasks of
/// numbering from 1, each line moved by `start - 1`; numbered from 1, the lines
/// strictly increase and each lies between 1 and the number of lines; a task's
/// status is `Open` for the marker ` `, `Done` for `x` or `X`, `Canceled` for
/// `-`, and `Custom` for any other marker.
pub proof fn law_task_lines(content: Seq<char>, start: int)
    ensures
        tasks_from(lines_of(content), 0, start) == tasks_from(lines_of(content), 0, 1).map_values(
            |t: (int, TaskStatus, Seq<char>)| shift_task(t, start - 1),
        ),
        forall|i: int|
            0 <= i < tasks_from(lines_of(content), 0, 1).len() ==> 1 <= (#[trigger] tasks_from(
                lines_of(content),
                0,
                1,
            )[i]).0 <= lines_of(content).len(),
        forall|i: int, j: int|
            0 <= i < j < tasks_from(lines_of(content), 0, 1).len() ==> (#[trigger] tasks_from(
                lines_of(content),
                0,
                1,
            )[i]).0 < (#[trigger] tasks_from(lines_of(content), 0, 1)[j]).0,
        forall|c: char|
            status_of(c) == (if c == ' ' {
                TaskStatus::Open
            } else if c == 'x' || c == 'X' {
                TaskStatus::Done
            } else if c == '-' {
                TaskStatus::Canceled
            } else {
                TaskStatus::Custom(c)
            }),
{
    lemma_tasks_shift(lines_of(content), 0, 1, start - 1);
    lemma_tasks_lines(lines_of(content), 0, 1);
}


proof fn lemma_indent_run(l: Seq<char>, i: int, e: int)
    requires
        0 <= i <= e < l.len(),
        forall|j: int| i <= j < e ==> (#[trigger] l[j]) == ' ' || l[j] == '\t',
        l[e] != ' ' && l[e] != '\t',
    ensures
        indent_end(l, i) == e,
    decreases e - i,
{
    if i < e {
        lemma_indent_run(l, i + 1, e);
    }
}

proof fn lemma_ws_end_shift(w: Seq<char>, l: Seq<char>, i: int)
    requires
        0 <= i <= l.len(),
    ensures
        ws_end(w + l, w.len() + i) == w.len() + ws_end(l, i),
    decreases l.len() - i,
{
    if i < l.len() {
        assert((w + l)[w.len() + i] == l[i]);
        lemma_ws_end_shift(w, l, i + 1);
    }
}

/// Indentation does not change whether a line is a task, nor which: for any
/// run `w` of spaces and tabs, `w + l` holds the task that `l` holds, when `l`
/// starts with `-`.
pub proof fn law_task_indent(w: Seq<char>, l: Seq<char>)
    requires
        forall|j: int| 0 <= j < w.len() ==> (#[trigger] w[j]) == ' ' || w[j] == '\t',
        l.len() > 0,
        l[0] == '-',
    ensures
        task_of_line(w + l) == task_of_line(l),
{
    let x = w + l;
    let m = w.len() as int;
    assert forall|j: int| 0 <= j < m implies (#[trigger] x[j]) == ' ' || x[j] == '\t' by {
        assert(x[j] == w[j]);
    }
    assert(x[m] == l[0]);
    lemma_indent_run(x, 0, m);
    lemma_indent_run(l, 0, 0);
    assert forall|j: int| 0 <= j < l.len() implies #[trigger] x[m + j] == l[j] by {}
    if 5 <= l.len() {
        lemma_ws_end_shift(w, l, 5);
        crate::scan::lemma_ws_end_bounds(l, 5);
        assert(x.subrange(ws_end(x, m + 5), x.len() as int) =~= l.subrange(ws_end(l, 5), l.len() as int));
        assert(x[m + 1] == l[1] && x[m + 2] == l[2] && x[m + 3] == l[3] && x[m + 4] == l[4]);
    }
}

} // verus!
