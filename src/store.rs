use crate::date::CalDate;
use crate::task::{decode, encode, marker, parse_task, starts_with_marker, Task, TaskError, TaskView};
use crate::text::{chars_of, string_of};
use vstd::prelude::*;

verus! {

/// The task a line holds, if it holds one that reads.
pub open spec fn task_of(l: Seq<char>) -> Option<TaskView> {
    match decode(l) {
        Ok(Some(t)) => Some(t),
        _ => None,
    }
}

pub open spec fn lines_ok(ls: Seq<Seq<char>>) -> bool {
    forall|i: int| 0 <= i < ls.len() ==> (#[trigger] decode(ls[i])) is Ok
}

pub open spec fn tree_ok(fs: Seq<Seq<Seq<char>>>) -> bool {
    forall|j: int| 0 <= j < fs.len() ==> lines_ok(#[trigger] fs[j])
}

/// The tasks of a file, in line order.
pub open spec fn lines_tasks(ls: Seq<Seq<char>>) -> Seq<TaskView> {
    ls.filter_map(|l: Seq<char>| task_of(l))
}

pub open spec fn opt_text(o: Option<String>) -> Option<Seq<char>> {
    match o {
        Some(s) => Some(s@),
        None => None,
    }
}

/// A task passes the filters: with `due_only`, a due date that is not after
/// `today`; with a label, that exact label among its labels.
pub open spec fn selected(
    t: TaskView,
    due_only: bool,
    label: Option<Seq<char>>,
    today: CalDate,
) -> bool {
    &&& due_only ==> (t.date matches Some(d) && d.spec_le(today))
    &&& label matches Some(l) ==> t.labels.contains(l)
}

pub open spec fn pick(
    l: Seq<char>,
    due_only: bool,
    label: Option<Seq<char>>,
    today: CalDate,
) -> Option<TaskView> {
    match task_of(l) {
        Some(t) => if selected(t, due_only, label, today) {
            Some(t)
        } else {
            None
        },
        None => None,
    }
}

/// The tasks of a file that pass the filters, in line order.
pub open spec fn file_selection(
    ls: Seq<Seq<char>>,
    due_only: bool,
    label: Option<Seq<char>>,
    today: CalDate,
) -> Seq<TaskView> {
    ls.filter_map(|l: Seq<char>| pick(l, due_only, label, today))
}

pub open spec fn task_views(v: Seq<Task>) -> Seq<TaskView> {
    v.map_values(|t: Task| t@)
}

fn has_label(labels: &Vec<String>, l: &String) -> (r: bool)
    ensures
        r == labels.deep_view().contains(l@),
{
    let mut i: usize = 0;
    while i < labels.len()
        invariant
            i <= labels@.len(),
            forall|j: int| 0 <= j < i ==> labels.deep_view()[j] != l@,
        decreases labels.len() - i,
    {
        if labels[i] == *l {
            assert(labels.deep_view()[i as int] == l@);
            return true;
        }
        i += 1;
    }
    false
}

fn is_selected(t: &Task, due_only: bool, label: &Option<String>, today: &CalDate) -> (r: bool)
    ensures
        r == selected(t@, due_only, opt_text(*label), *today),
{
    if due_only {
        match &t.date {
            None => {
                return false;
            },
            Some(d) => {
                if !d.le(today) {
                    return false;
                }
            },
        }
    }
    match label {
        Some(l) => has_label(&t.labels, l),
        None => true,
    }
}

/// The tasks of one file that pass the filters: with `due_only`, those due
/// today or earlier; with a label, those that carry it.
pub fn get_file_tasks(
    lines: &Vec<String>,
    due_only: bool,
    label: &Option<String>,
    today: &CalDate,
) -> (r: Result<Vec<Task>, TaskError>)
    ensures
        r is Ok <==> lines_ok(lines.deep_view()),
        r is Err ==> r == Err::<Vec<Task>, TaskError>(TaskError::MalformedRecord),
        r matches Ok(v) ==> task_views(v@) == file_selection(
            lines.deep_view(),
            due_only,
            opt_text(*label),
            *today,
        ),
{
    let ghost ls = lines.deep_view();
    let mut out: Vec<Task> = Vec::new();
    let mut i: usize = 0;
    while i < lines.len()
        invariant
            i <= lines@.len(),
            ls == lines.deep_view(),
            forall|j: int| 0 <= j < i ==> (#[trigger] decode(ls[j])) is Ok,
            task_views(out@) == file_selection(ls.take(i as int), due_only, opt_text(*label), *today),
        decreases lines.len() - i,
    {
        let ghost pre = ls.take(i as int);
        let ghost next = ls.take(i + 1);
        assert(next.drop_last() =~= pre);
        assert(next.last() == ls[i as int]);
        assert(lines[i as int]@ == ls[i as int]);
        match parse_task(lines[i].as_str()) {
            Err(e) => {
                return Err(TaskError::MalformedRecord);
            },
            Ok(None) => {},
            Ok(Some(t)) => {
                if is_selected(&t, due_only, label, today) {
                    let ghost ov = task_views(out@);
                    out.push(t);
                    assert(task_views(out@) =~= ov.push(t@));
                }
            },
        }
        i += 1;
    }
    assert(ls.take(i as int) =~= ls);
    Ok(out)
}

/// The line holds a task that carries label `x`.
pub open spec fn carries(l: Seq<char>, x: Seq<char>) -> bool {
    task_of(l) matches Some(t) && t.labels.contains(x)
}

/// A label some task of the file carries.
pub open spec fn file_label(ls: Seq<Seq<char>>, x: Seq<char>) -> bool {
    exists|i: int| 0 <= i < ls.len() && #[trigger] carries(ls[i], x)
}

fn add_new_labels(out: &mut Vec<String>, labels: &Vec<String>)
    requires
        old(out).deep_view().no_duplicates(),
    ensures
        final(out).deep_view().no_duplicates(),
        forall|x: Seq<char>|
            #[trigger] final(out).deep_view().contains(x) <==> (old(out).deep_view().contains(x)
                || labels.deep_view().contains(x)),
{
    let mut i: usize = 0;
    let ghost base = out.deep_view();
    while i < labels.len()
        invariant
            i <= labels@.len(),
            base == old(out).deep_view(),
            out.deep_view().no_duplicates(),
            forall|x: Seq<char>|
                #[trigger] out.deep_view().contains(x) <==> (base.contains(x) || labels.deep_view().take(
                    i as int,
                ).contains(x)),
        decreases labels.len() - i,
    {
        let ghost pre = labels.deep_view().take(i as int);
        let ghost next = labels.deep_view().take(i + 1);
        assert(next =~= pre.push(labels[i as int]@));
        let ghost ov = out.deep_view();
        assert(forall|x: Seq<char>| ov.contains(x) <==> (base.contains(x) || pre.contains(x)));
        let ghost lx = labels[i as int]@;
        assert(labels.deep_view()[i as int] == lx);
        if !has_label(out, &labels[i]) {
            let c = labels[i].clone();
            assert(c@ == lx);
            out.push(c);
            assert(out.deep_view() =~= ov.push(lx));
            proof {
                assert forall|x: Seq<char>| out.deep_view().contains(x) <==> (ov.contains(x) || x == lx) by {
                    if out.deep_view().contains(x) {
                        let k = choose|k: int| 0 <= k < out.deep_view().len() && out.deep_view()[k] == x;
                        if k < ov.len() {
                            assert(ov[k] == x);
                        }
                    }
                    if ov.contains(x) {
                        let k = choose|k: int| 0 <= k < ov.len() && ov[k] == x;
                        assert(out.deep_view()[k] == x);
                    }
                    if x == lx {
                        assert(out.deep_view()[ov.len() as int] == x);
                    }
                }
            }
        }
        proof {
            assert forall|x: Seq<char>| next.contains(x) <==> (pre.contains(x) || x == labels[i as int]@) by {
                if next.contains(x) {
                    let k = choose|k: int| 0 <= k < next.len() && next[k] == x;
                    if k < pre.len() {
                        assert(pre[k] == x);
                    }
                }
                if pre.contains(x) {
                    let k = choose|k: int| 0 <= k < pre.len() && pre[k] == x;
                    assert(next[k] == x);
                }
                if x == labels[i as int]@ {
                    assert(next[i as int] == x);
                }
            }
            assert(ov.contains(lx) ==> (base.contains(lx) || pre.contains(lx)));
            assert forall|x: Seq<char>| out.deep_view().contains(x) <==> (base.contains(x) || next.contains(x)) by {
                assert(next.contains(x) <==> (pre.contains(x) || x == lx));
            }
        }
        i += 1;
    }
    assert(labels.deep_view().take(i as int) =~= labels.deep_view());
    assert forall|x: Seq<char>|
        out.deep_view().contains(x) <==> (base.contains(x) || labels.deep_view().contains(x)) by {
        assert(labels.deep_view().take(i as int).contains(x) == labels.deep_view().contains(x));
    }
}

/// The labels that the tasks of one file carry, each once.
pub fn get_file_labels(lines: &Vec<String>) -> (r: Result<Vec<String>, TaskError>)
    ensures
        r is Ok <==> lines_ok(lines.deep_view()),
        r is Err ==> r == Err::<Vec<String>, TaskError>(TaskError::MalformedRecord),
        r matches Ok(v) ==> v.deep_view().no_duplicates() && forall|x: Seq<char>|
            v.deep_view().contains(x) <==> file_label(lines.deep_view(), x),
{
    let ghost ls = lines.deep_view();
    let mut out: Vec<String> = Vec::new();
    let mut i: usize = 0;
    while i < lines.len()
        invariant
            i <= lines@.len(),
            ls == lines.deep_view(),
            forall|j: int| 0 <= j < i ==> (#[trigger] decode(ls[j])) is Ok,
            out.deep_view().no_duplicates(),
            forall|x: Seq<char>|
                #[trigger] out.deep_view().contains(x) <==> file_label(ls.take(i as int), x),
        decreases lines.len() - i,
    {
        let ghost pre = ls.take(i as int);
        let ghost next = ls.take(i + 1);
        assert(lines[i as int]@ == ls[i as int]);
        match parse_task(lines[i].as_str()) {
            Err(e) => {
                return Err(TaskError::MalformedRecord);
            },
            Ok(None) => {
                proof {
                    assert forall|x: Seq<char>| file_label(next, x) <==> file_label(pre, x) by {
                        if file_label(next, x) {
                            let k = choose|k: int|
                                0 <= k < next.len() && #[trigger] carries(next[k], x);
                            assert(next[i as int] == ls[i as int]);
                            assert(task_of(next[i as int]) is None);
                            assert(k < i);
                            assert(pre[k] == next[k]);
                        }
                        if file_label(pre, x) {
                            let k = choose|k: int|
                                0 <= k < pre.len() && #[trigger] carries(pre[k], x);
                            assert(pre[k] == next[k]);
                        }
                    }
                }
            },
            Ok(Some(t)) => {
                assert(next[i as int] == ls[i as int]);
                let ghost ov = out.deep_view();
                assert(forall|x: Seq<char>| ov.contains(x) <==> file_label(pre, x));
                add_new_labels(&mut out, &t.labels);
                proof {
                    assert forall|x: Seq<char>|
                        file_label(next, x) <==> (file_label(pre, x) || t@.labels.contains(
                            x,
                        )) by {
                        if file_label(next, x) {
                            let k = choose|k: int|
                                0 <= k < next.len() && #[trigger] carries(next[k], x);
                            if k < pre.len() {
                                assert(pre[k] == next[k]);
                            } else {
                                assert(next[k] == ls[i as int]);
                                assert(task_of(next[k]) == Some(t@));
                            }
                        }
                        if file_label(pre, x) {
                            let k = choose|k: int|
                                0 <= k < pre.len() && #[trigger] carries(pre[k], x);
                            assert(pre[k] == next[k]);
                        }
                        if t@.labels.contains(x) {
                            assert(task_of(next[i as int]) == Some(t@));
                            assert(carries(next[i as int], x));
                        }
                    }
                    assert forall|x: Seq<char>| out.deep_view().contains(x) <==> file_label(next, x) by {
                        assert(file_label(next, x) <==> (file_label(pre, x) || t@.labels.contains(x)));
                        assert(ov.contains(x) <==> file_label(pre, x));
                        assert(out.deep_view().contains(x) <==> (ov.contains(x)
                            || t.labels.deep_view().contains(x)));
                        assert(t@.labels == t.labels.deep_view());
                    }
                }
            },
        }
        i += 1;
    }
    assert(ls.take(i as int) =~= ls);
    Ok(out)
}

/// The largest id handed out so far.
#[derive(Debug)]
pub struct TaskStats {
    pub max_id: i32,
}

pub open spec fn line_max(m: int, l: Seq<char>) -> int {
    match task_of(l) {
        Some(t) => if t.id > m {
            t.id
        } else {
            m
        },
        None => m,
    }
}

pub open spec fn lines_max(m: int, ls: Seq<Seq<char>>) -> int
    decreases ls.len(),
{
    if ls.len() == 0 {
        m
    } else {
        line_max(lines_max(m, ls.drop_last()), ls.last())
    }
}

/// The largest of `m` and every task id in the files.
pub open spec fn files_max(m: int, fs: Seq<Seq<Seq<char>>>) -> int
    decreases fs.len(),
{
    if fs.len() == 0 {
        m
    } else {
        lines_max(files_max(m, fs.drop_last()), fs.last())
    }
}

/// Where id assignment stands: whether a task without an id has been kept
/// as it is, and the largest id in use.
pub struct IdState {
    pub unassigned_seen: bool,
    pub max: int,
}

/// A task without an id keeps `-1` the first time; every later one gets the
/// next id above the largest in use.
pub open spec fn renumber(t: TaskView, st: IdState) -> TaskView {
    if t.id == -1 && st.unassigned_seen {
        TaskView { id: st.max + 1, ..t }
    } else {
        t
    }
}

pub open spec fn advance(st: IdState, t: TaskView) -> IdState {
    if t.id == -1 {
        if st.unassigned_seen {
            IdState { max: st.max + 1, ..st }
        } else {
            IdState { unassigned_seen: true, ..st }
        }
    } else {
        st
    }
}

pub open spec fn line_state(st: IdState, l: Seq<char>) -> IdState {
    match task_of(l) {
        Some(t) => advance(st, t),
        None => st,
    }
}

pub open spec fn lines_state(st: IdState, ls: Seq<Seq<char>>) -> IdState
    decreases ls.len(),
{
    if ls.len() == 0 {
        st
    } else {
        line_state(lines_state(st, ls.drop_last()), ls.last())
    }
}

pub open spec fn files_state(st: IdState, fs: Seq<Seq<Seq<char>>>) -> IdState
    decreases fs.len(),
{
    if fs.len() == 0 {
        st
    } else {
        lines_state(files_state(st, fs.drop_last()), fs.last())
    }
}

/// A line as initialisation writes it: a task re-encoded with its id settled,
/// any other line as it was.
pub open spec fn init_line(st: IdState, l: Seq<char>) -> Seq<char> {
    match task_of(l) {
        Some(t) => encode(renumber(t, st)),
        None => l,
    }
}

pub open spec fn init_lines(st: IdState, ls: Seq<Seq<char>>) -> Seq<Seq<char>>
    decreases ls.len(),
{
    if ls.len() == 0 {
        seq![]
    } else {
        init_lines(st, ls.drop_last()).push(init_line(lines_state(st, ls.drop_last()), ls.last()))
    }
}

pub open spec fn init_files(st: IdState, fs: Seq<Seq<Seq<char>>>) -> Seq<Seq<Seq<char>>>
    decreases fs.len(),
{
    if fs.len() == 0 {
        seq![]
    } else {
        init_files(st, fs.drop_last()).push(init_lines(files_state(st, fs.drop_last()), fs.last()))
    }
}

/// The state initialisation starts from: nothing seen, the largest id in
/// the files (at least zero).
pub open spec fn start_state(fs: Seq<Seq<Seq<char>>>) -> IdState {
    IdState { unassigned_seen: false, max: files_max(0, fs) }
}

proof fn lemma_lines_state_grows(st: IdState, ls: Seq<Seq<char>>, k: int)
    requires
        0 <= k <= ls.len(),
    ensures
        lines_state(st, ls).max >= lines_state(st, ls.take(k)).max,
        lines_state(st, ls).max >= st.max,
    decreases ls.len(),
{
    if ls.len() > 0 {
        if k == ls.len() {
            assert(ls.take(k) =~= ls);
            lemma_lines_state_grows(st, ls.drop_last(), 0);
        } else {
            assert(ls.drop_last().take(k) =~= ls.take(k));
            lemma_lines_state_grows(st, ls.drop_last(), k);
        }
    } else {
        assert(ls.take(k) =~= ls);
    }
}

proof fn lemma_files_state_grows(st: IdState, fs: Seq<Seq<Seq<char>>>, k: int)
    requires
        0 <= k <= fs.len(),
    ensures
        files_state(st, fs).max >= files_state(st, fs.take(k)).max,
    decreases fs.len(),
{
    if fs.len() > 0 {
        lemma_lines_state_grows(files_state(st, fs.drop_last()), fs.last(), 0);
        if k == fs.len() {
            assert(fs.take(k) =~= fs);
        } else {
            assert(fs.drop_last().take(k) =~= fs.take(k));
            lemma_files_state_grows(st, fs.drop_last(), k);
        }
    } else {
        assert(fs.take(k) =~= fs);
    }
}

fn lines_max_exec(lines: &Vec<String>, m: i32) -> (r: Result<i32, TaskError>)
    ensures
        r is Ok <==> lines_ok(lines.deep_view()),
        r is Err ==> r == Err::<i32, TaskError>(TaskError::MalformedRecord),
        r matches Ok(v) ==> v == lines_max(m as int, lines.deep_view()),
{
    let ghost ls = lines.deep_view();
    let mut cur = m;
    let mut i: usize = 0;
    while i < lines.len()
        invariant
            i <= lines@.len(),
            ls == lines.deep_view(),
            forall|j: int| 0 <= j < i ==> (#[trigger] decode(ls[j])) is Ok,
            cur == lines_max(m as int, ls.take(i as int)),
        decreases lines.len() - i,
    {
        assert(ls.take(i + 1).drop_last() =~= ls.take(i as int));
        assert(lines[i as int]@ == ls[i as int]);
        match parse_task(lines[i].as_str()) {
            Err(_) => {
                return Err(TaskError::MalformedRecord);
            },
            Ok(None) => {},
            Ok(Some(t)) => {
                if t.id > cur {
                    cur = t.id;
                }
            },
        }
        i += 1;
    }
    assert(ls.take(i as int) =~= ls);
    Ok(cur)
}

fn init_file(lines: &Vec<String>, seen: &mut bool, max: &mut i32) -> (r: Result<
    Vec<String>,
    TaskError,
>)
    requires
        lines_ok(lines.deep_view()),
    ensures
        ({
            let st0 = IdState { unassigned_seen: *old(seen), max: *old(max) as int };
            let st1 = lines_state(st0, lines.deep_view());
            &&& r is Ok <==> st1.max <= i32::MAX
            &&& r is Err ==> r == Err::<Vec<String>, TaskError>(TaskError::IdOverflow)
            &&& r matches Ok(v) ==> v.deep_view() == init_lines(st0, lines.deep_view())
                && *final(seen) == st1.unassigned_seen && *final(max) == st1.max
        }),
{
    let ghost ls = lines.deep_view();
    let ghost st0 = IdState { unassigned_seen: *seen, max: *max as int };
    let mut out: Vec<String> = Vec::new();
    let mut i: usize = 0;
    while i < lines.len()
        invariant
            i <= lines@.len(),
            ls == lines.deep_view(),
            lines_ok(ls),
            st0 == (IdState { unassigned_seen: *old(seen), max: *old(max) as int }),
            lines_state(st0, ls.take(i as int)) == (IdState {
                unassigned_seen: *seen,
                max: *max as int,
            }),
            out.deep_view() == init_lines(st0, ls.take(i as int)),
        decreases lines.len() - i,
    {
        let ghost pre = ls.take(i as int);
        let ghost next = ls.take(i + 1);
        assert(next.drop_last() =~= pre);
        assert(next.last() == ls[i as int]);
        assert(lines[i as int]@ == ls[i as int]);
        let ghost ov = out.deep_view();
        assert(decode(ls[i as int]) is Ok);
        match parse_task(lines[i].as_str()) {
            Err(_) => {
                assert(false);
                return Err(TaskError::MalformedRecord);
            },
            Ok(None) => {
                out.push(lines[i].clone());
            },
            Ok(Some(t)) => {
                let mut t = t;
                if t.id == -1 {
                    if *seen {
                        if *max == i32::MAX {
                            proof {
                                lemma_lines_state_grows(st0, ls, i + 1);
                            }
                            return Err(TaskError::IdOverflow);
                        }
                        *max = *max + 1;
                        t.id = *max;
                    } else {
                        *seen = true;
                    }
                }
                out.push(t.to_line());
            },
        }
        assert(out.deep_view() =~= ov.push(init_line(lines_state(st0, pre), ls[i as int])));
        i += 1;
    }
    assert(ls.take(i as int) =~= ls);
    Ok(out)
}

/// Settles the ids of all task files, in the order given: a task without an
/// id keeps `-1` the first time, and each later one gets the next id above
/// the largest in use. Each file comes back with its tasks re-encoded and its
/// other lines as they were, together with the largest id now in use.
pub fn initialise(files: &Vec<Vec<String>>) -> (r: Result<(TaskStats, Vec<Vec<String>>), TaskError>)
    ensures
        ({
            let fs = files.deep_view();
            let end = files_state(start_state(fs), fs);
            &&& r is Ok <==> tree_ok(fs) && end.max <= i32::MAX
            &&& r is Err ==> r == Err::<(TaskStats, Vec<Vec<String>>), TaskError>(
                if tree_ok(fs) {
                    TaskError::IdOverflow
                } else {
                    TaskError::MalformedRecord
                },
            )
            &&& r matches Ok((stats, out)) ==> out.deep_view() == init_files(start_state(fs), fs)
                && stats.max_id == end.max
        }),
{
    let ghost fs = files.deep_view();
    let mut m: i32 = 0;
    let mut j: usize = 0;
    while j < files.len()
        invariant
            j <= files@.len(),
            fs == files.deep_view(),
            forall|k: int| 0 <= k < j ==> lines_ok(#[trigger] fs[k]),
            m == files_max(0, fs.take(j as int)),
        decreases files.len() - j,
    {
        assert(fs.take(j + 1).drop_last() =~= fs.take(j as int));
        assert(files[j as int].deep_view() == fs[j as int]);
        match lines_max_exec(&files[j], m) {
            Err(e) => {
                return Err(e);
            },
            Ok(v) => {
                m = v;
            },
        }
        j += 1;
    }
    assert(fs.take(j as int) =~= fs);
    let ghost st0 = start_state(fs);
    let mut seen = false;
    let mut max = m;
    let mut out: Vec<Vec<String>> = Vec::new();
    let mut j: usize = 0;
    while j < files.len()
        invariant
            j <= files@.len(),
            fs == files.deep_view(),
            tree_ok(fs),
            st0 == start_state(fs),
            files_state(st0, fs.take(j as int)) == (IdState { unassigned_seen: seen, max: max as int }),
            out.deep_view() == init_files(st0, fs.take(j as int)),
        decreases files.len() - j,
    {
        let ghost pre = fs.take(j as int);
        let ghost next = fs.take(j + 1);
        assert(next.drop_last() =~= pre);
        assert(next.last() == fs[j as int]);
        assert(files[j as int].deep_view() == fs[j as int]);
        assert(lines_ok(fs[j as int]));
        let ghost ov = out.deep_view();
        match init_file(&files[j], &mut seen, &mut max) {
            Err(e) => {
                proof {
                    lemma_files_state_grows(st0, fs, j + 1);
                }
                return Err(e);
            },
            Ok(v) => {
                let ghost vv = v.deep_view();
                out.push(v);
                assert(out.deep_view() =~~= ov.push(vv));
            },
        }
        j += 1;
    }
    assert(fs.take(j as int) =~= fs);
    Ok((TaskStats { max_id: max }, out))
}

/// The line holds a task with this id.
pub open spec fn holds_id(l: Seq<char>, id: int) -> bool {
    task_of(l) matches Some(t) && t.id == id
}

pub open spec fn file_has(ls: Seq<Seq<char>>, id: int) -> bool {
    exists|i: int| 0 <= i < ls.len() && #[trigger] holds_id(ls[i], id)
}

/// A task line re-encoded; any other line as it is.
pub open spec fn normalized(l: Seq<char>) -> Seq<char> {
    match task_of(l) {
        Some(t) => encode(t),
        None => l,
    }
}

pub open spec fn kept_line(l: Seq<char>, id: int, verbatim: bool) -> Option<Seq<char>> {
    if holds_id(l, id) {
        None
    } else if verbatim {
        Some(l)
    } else {
        Some(normalized(l))
    }
}

pub open spec fn taken_line(l: Seq<char>, id: int, verbatim: bool) -> Option<Seq<char>> {
    if !holds_id(l, id) {
        None
    } else if verbatim {
        Some(l)
    } else {
        Some(normalized(l))
    }
}

/// The lines of a file without the tasks of this id.
pub open spec fn kept_lines(ls: Seq<Seq<char>>, id: int, verbatim: bool) -> Seq<Seq<char>> {
    ls.filter_map(|l: Seq<char>| kept_line(l, id, verbatim))
}

/// The lines of the tasks of this id.
pub open spec fn taken_lines(ls: Seq<Seq<char>>, id: int, verbatim: bool) -> Seq<Seq<char>> {
    ls.filter_map(|l: Seq<char>| taken_line(l, id, verbatim))
}

/// Every file up to and including the first one that holds the id reads
/// without error (all files, where none holds it).
pub open spec fn scanned_ok(fs: Seq<Seq<Seq<char>>>, id: int) -> bool {
    forall|j: int|
        0 <= j < fs.len() && (forall|k: int| 0 <= k < j ==> !file_has(#[trigger] fs[k], id))
            ==> lines_ok(#[trigger] fs[j])
}

pub open spec fn no_file_has(fs: Seq<Seq<Seq<char>>>, id: int) -> bool {
    forall|k: int| 0 <= k < fs.len() ==> !file_has(#[trigger] fs[k], id)
}

/// A task taken out of one file: which file, what remains of it, and the
/// lines that were taken.
#[derive(Debug)]
pub struct Removal {
    pub file: usize,
    pub lines: Vec<String>,
    pub taken: Vec<String>,
}

fn normalize_line(line: &String, parsed: &Option<Task>) -> (r: String)
    requires
        decode(line@) == Ok::<Option<TaskView>, TaskError>(
            match parsed {
                Some(t) => Some(t@),
                None => None,
            },
        ),
    ensures
        r@ == normalized(line@),
{
    match parsed {
        Some(t) => t.to_line(),
        None => line.clone(),
    }
}

fn split_file(lines: &Vec<String>, id: i32, verbatim: bool) -> (r: Result<
    (Vec<String>, Vec<String>),
    TaskError,
>)
    ensures
        r is Ok <==> lines_ok(lines.deep_view()),
        r matches Ok((kept, taken)) ==> kept.deep_view() == kept_lines(
            lines.deep_view(),
            id as int,
            verbatim,
        ) && taken.deep_view() == taken_lines(lines.deep_view(), id as int, verbatim) && (
        taken@.len() > 0 <==> file_has(lines.deep_view(), id as int)),
{
    let ghost ls = lines.deep_view();
    let mut kept: Vec<String> = Vec::new();
    let mut taken: Vec<String> = Vec::new();
    let mut i: usize = 0;
    while i < lines.len()
        invariant
            i <= lines@.len(),
            ls == lines.deep_view(),
            forall|j: int| 0 <= j < i ==> (#[trigger] decode(ls[j])) is Ok,
            kept.deep_view() == kept_lines(ls.take(i as int), id as int, verbatim),
            taken.deep_view() == taken_lines(ls.take(i as int), id as int, verbatim),
            taken@.len() > 0 <==> exists|k: int| 0 <= k < i && #[trigger] holds_id(ls[k], id as int),
        decreases lines.len() - i,
    {
        let ghost pre = ls.take(i as int);
        let ghost next = ls.take(i + 1);
        assert(next.drop_last() =~= pre);
        assert(next.last() == ls[i as int]);
        assert(lines[i as int]@ == ls[i as int]);
        let ghost kv = kept.deep_view();
        let ghost tv = taken.deep_view();
        let parsed = match parse_task(lines[i].as_str()) {
            Err(_) => {
                return Err(TaskError::MalformedRecord);
            },
            Ok(p) => p,
        };
        let hit = match &parsed {
            Some(t) => t.id == id,
            None => false,
        };
        assert(hit == holds_id(ls[i as int], id as int));
        let text = if verbatim {
            lines[i].clone()
        } else {
            normalize_line(&lines[i], &parsed)
        };
        if hit {
            taken.push(text);
            assert(taken.deep_view() =~= tv.push(text@));
        } else {
            kept.push(text);
            assert(kept.deep_view() =~= kv.push(text@));
            assert(forall|k: int| 0 <= k < i + 1 && #[trigger] holds_id(ls[k], id as int) ==> k < i);
        }
        i += 1;
    }
    assert(ls.take(i as int) =~= ls);
    Ok((kept, taken))
}

fn take_task(id: i32, files: &Vec<Vec<String>>, verbatim: bool) -> (r: Result<Removal, TaskError>)
    ensures
        ({
            let fs = files.deep_view();
            &&& r == Err::<Removal, TaskError>(TaskError::MalformedRecord) <==> !scanned_ok(
                fs,
                id as int,
            )
            &&& r == Err::<Removal, TaskError>(TaskError::NotFound) <==> scanned_ok(fs, id as int)
                && no_file_has(fs, id as int)
            &&& r is Err ==> r == Err::<Removal, TaskError>(TaskError::MalformedRecord) || r
                == Err::<Removal, TaskError>(TaskError::NotFound)
            &&& r matches Ok(rm) ==> {
                &&& rm.file < fs.len()
                &&& file_has(fs[rm.file as int], id as int)
                &&& forall|k: int| 0 <= k < rm.file ==> !file_has(#[trigger] fs[k], id as int)
                &&& scanned_ok(fs, id as int)
                &&& rm.lines.deep_view() == kept_lines(fs[rm.file as int], id as int, verbatim)
                &&& rm.taken.deep_view() == taken_lines(fs[rm.file as int], id as int, verbatim)
            }
        }),
{
    let ghost fs = files.deep_view();
    let mut j: usize = 0;
    while j < files.len()
        invariant
            j <= files@.len(),
            fs == files.deep_view(),
            forall|k: int| 0 <= k < j ==> !file_has(#[trigger] fs[k], id as int),
            forall|k: int| 0 <= k < j ==> lines_ok(#[trigger] fs[k]),
        decreases files.len() - j,
    {
        assert(files[j as int].deep_view() == fs[j as int]);
        match split_file(&files[j], id, verbatim) {
            Err(_) => {
                assert(!scanned_ok(fs, id as int)) by {
                    assert(forall|k: int| 0 <= k < j ==> !file_has(#[trigger] fs[k], id as int));
                    assert(!lines_ok(fs[j as int]));
                }
                return Err(TaskError::MalformedRecord);
            },
            Ok((kept, taken)) => {
                if taken.len() > 0 {
                    assert(scanned_ok(fs, id as int)) by {
                        assert forall|jj: int|
                            0 <= jj < fs.len() && (forall|k: int|
                                0 <= k < jj ==> !file_has(#[trigger] fs[k], id as int))
                                implies lines_ok(#[trigger] fs[jj]) by {
                            if jj > j {
                                assert(!file_has(fs[j as int], id as int));
                            }
                        }
                    }
                    return Ok(Removal { file: j, lines: kept, taken });
                }
            },
        }
        j += 1;
    }
    assert(scanned_ok(fs, id as int));
    Err(TaskError::NotFound)
}

/// Removes the task of this id from the first file, in the order given, that
/// holds it; that file's other tasks are re-encoded. Files after it are not
/// read.
pub fn remove_task(task_id: i32, files: &Vec<Vec<String>>) -> (r: Result<Removal, TaskError>)
    ensures
        ({
            let fs = files.deep_view();
            &&& r == Err::<Removal, TaskError>(TaskError::MalformedRecord) <==> !scanned_ok(
                fs,
                task_id as int,
            )
            &&& r == Err::<Removal, TaskError>(TaskError::NotFound) <==> scanned_ok(
                fs,
                task_id as int,
            ) && no_file_has(fs, task_id as int)
            &&& r is Err ==> r == Err::<Removal, TaskError>(TaskError::MalformedRecord) || r
                == Err::<Removal, TaskError>(TaskError::NotFound)
            &&& r matches Ok(rm) ==> {
                &&& rm.file < fs.len()
                &&& file_has(fs[rm.file as int], task_id as int)
                &&& forall|k: int| 0 <= k < rm.file ==> !file_has(#[trigger] fs[k], task_id as int)
                &&& rm.lines.deep_view() == kept_lines(fs[rm.file as int], task_id as int, false)
                &&& rm.taken.deep_view() == taken_lines(fs[rm.file as int], task_id as int, false)
            }
        }),
{
    take_task(task_id, files, false)
}

/// Takes the task of this id out of the first file, in the order given, that
/// holds it, for its line to be appended to the destination file. Every line
/// stays as it was written. Nothing is read where the destination does not
/// exist.
pub fn move_task(task_id: i32, files: &Vec<Vec<String>>, dest_exists: bool) -> (r: Result<
    Removal,
    TaskError,
>)
    ensures
        !dest_exists ==> r == Err::<Removal, TaskError>(TaskError::NoDestination),
        dest_exists ==> ({
            let fs = files.deep_view();
            &&& r == Err::<Removal, TaskError>(TaskError::MalformedRecord) <==> !scanned_ok(
                fs,
                task_id as int,
            )
            &&& r == Err::<Removal, TaskError>(TaskError::NotFound) <==> scanned_ok(
                fs,
                task_id as int,
            ) && no_file_has(fs, task_id as int)
            &&& r is Err ==> r == Err::<Removal, TaskError>(TaskError::MalformedRecord) || r
                == Err::<Removal, TaskError>(TaskError::NotFound)
            &&& r matches Ok(rm) ==> {
                &&& rm.file < fs.len()
                &&& file_has(fs[rm.file as int], task_id as int)
                &&& forall|k: int| 0 <= k < rm.file ==> !file_has(#[trigger] fs[k], task_id as int)
                &&& rm.lines.deep_view() == kept_lines(fs[rm.file as int], task_id as int, true)
                &&& rm.taken.deep_view() == taken_lines(fs[rm.file as int], task_id as int, true)
            }
        }),
{
    if !dest_exists {
        return Err(TaskError::NoDestination);
    }
    take_task(task_id, files, true)
}

/// The change asked for: a label appended, the status flipped, the due date
/// cleared where there is one and set to `today` where there is none.
pub open spec fn modified(
    t: TaskView,
    label: Option<Seq<char>>,
    toggle_status: bool,
    toggle_date: bool,
    today: CalDate,
) -> TaskView {
    TaskView {
        done: if toggle_status {
            !t.done
        } else {
            t.done
        },
        date: if toggle_date {
            if t.date is Some {
                None
            } else {
                Some(today)
            }
        } else {
            t.date
        },
        labels: match label {
            Some(l) => t.labels.push(l),
            None => t.labels,
        },
        ..t
    }
}

pub open spec fn modify_line(
    l: Seq<char>,
    id: int,
    label: Option<Seq<char>>,
    toggle_status: bool,
    toggle_date: bool,
    today: CalDate,
) -> Seq<char> {
    match task_of(l) {
        Some(t) => encode(
            if t.id == id {
                modified(t, label, toggle_status, toggle_date, today)
            } else {
                t
            },
        ),
        None => l,
    }
}

pub open spec fn modify_lines(
    ls: Seq<Seq<char>>,
    id: int,
    label: Option<Seq<char>>,
    toggle_status: bool,
    toggle_date: bool,
    today: CalDate,
) -> Seq<Seq<char>> {
    ls.map_values(|l: Seq<char>| modify_line(l, id, label, toggle_status, toggle_date, today))
}

fn modify_file(
    lines: &Vec<String>,
    task_id: i32,
    label: &Option<String>,
    toggle_status: bool,
    toggle_date: bool,
    today: &CalDate,
) -> (r: Result<(Vec<String>, bool), TaskError>)
    ensures
        r is Ok <==> lines_ok(lines.deep_view()),
        r is Err ==> r == Err::<(Vec<String>, bool), TaskError>(TaskError::MalformedRecord),
        r matches Ok((out, found)) ==> out.deep_view() == modify_lines(
            lines.deep_view(),
            task_id as int,
            opt_text(*label),
            toggle_status,
            toggle_date,
            *today,
        ) && (found <==> file_has(lines.deep_view(), task_id as int)),
{
    let ghost ls = lines.deep_view();
    let ghost lab = opt_text(*label);
    let mut out: Vec<String> = Vec::new();
    let mut found = false;
    let mut i: usize = 0;
    while i < lines.len()
        invariant
            i <= lines@.len(),
            ls == lines.deep_view(),
            lab == opt_text(*label),
            forall|j: int| 0 <= j < i ==> (#[trigger] decode(ls[j])) is Ok,
            out.deep_view() == modify_lines(
                ls.take(i as int),
                task_id as int,
                lab,
                toggle_status,
                toggle_date,
                *today,
            ),
            found <==> exists|k: int| 0 <= k < i && #[trigger] holds_id(ls[k], task_id as int),
        decreases lines.len() - i,
    {
        let ghost ov = out.deep_view();
        let ghost newl = modify_line(ls[i as int], task_id as int, lab, toggle_status, toggle_date, *today);
        assert(lines[i as int]@ == ls[i as int]);
        match parse_task(lines[i].as_str()) {
            Err(_) => {
                return Err(TaskError::MalformedRecord);
            },
            Ok(None) => {
                assert(!holds_id(ls[i as int], task_id as int));
                let c = lines[i].clone();
                assert(c@ == newl);
                out.push(c);
                assert(out.deep_view() =~= ov.push(newl));
            },
            Ok(Some(t)) => {
                let ghost t0 = t@;
                let mut t = t;
                if t.id == task_id {
                    assert(holds_id(ls[i as int], task_id as int));
                    found = true;
                    match label {
                        Some(l) => {
                            let ghost lv = t.labels.deep_view();
                            t.labels.push(l.clone());
                            assert(t.labels.deep_view() =~= lv.push(l@));
                        },
                        None => {},
                    }
                    if toggle_status {
                        t.is_done = !t.is_done;
                    }
                    if toggle_date {
                        if t.date.is_some() {
                            t.date = None;
                        } else {
                            t.date = Some(*today);
                        }
                    }
                    assert(t@ == modified(t0, lab, toggle_status, toggle_date, *today));
                } else {
                    assert(!holds_id(ls[i as int], task_id as int));
                }
                let text = t.to_line();
                assert(text@ == newl);
                out.push(text);
                assert(out.deep_view() =~= ov.push(newl));
            },
        }
        assert(ls.take(i + 1) =~= ls.take(i as int).push(ls[i as int]));
        assert(out.deep_view() =~= modify_lines(
            ls.take(i + 1),
            task_id as int,
            lab,
            toggle_status,
            toggle_date,
            *today,
        ));
        assert(found <==> exists|k: int| 0 <= k < i + 1 && #[trigger] holds_id(ls[k], task_id as int));
        i += 1;
    }
    assert(ls.take(i as int) =~= ls);
    Ok((out, found))
}

/// Changes every task of this id, in all files: appends the label, flips the
/// status, toggles the due date against `today`, as asked. Each file comes
/// back with its tasks re-encoded and its other lines as they were.
pub fn modify_task(
    task_id: i32,
    files: &Vec<Vec<String>>,
    label_to_add: &Option<String>,
    toggle_status: bool,
    toggle_date: bool,
    today: &CalDate,
) -> (r: Result<Vec<Vec<String>>, TaskError>)
    ensures
        ({
            let fs = files.deep_view();
            &&& r == Err::<Vec<Vec<String>>, TaskError>(TaskError::MalformedRecord) <==> !tree_ok(
                fs,
            )
            &&& r == Err::<Vec<Vec<String>>, TaskError>(TaskError::NotFound) <==> tree_ok(fs)
                && no_file_has(fs, task_id as int)
            &&& r is Err ==> r == Err::<Vec<Vec<String>>, TaskError>(TaskError::MalformedRecord)
                || r == Err::<Vec<Vec<String>>, TaskError>(TaskError::NotFound)
            &&& r matches Ok(out) ==> out.deep_view() == fs.map_values(
                |ls: Seq<Seq<char>>|
                    modify_lines(
                        ls,
                        task_id as int,
                        opt_text(*label_to_add),
                        toggle_status,
                        toggle_date,
                        *today,
                    ),
            )
        }),
{
    let ghost fs = files.deep_view();
    let ghost lab = opt_text(*label_to_add);
    let mut out: Vec<Vec<String>> = Vec::new();
    let mut found = false;
    let mut j: usize = 0;
    while j < files.len()
        invariant
            j <= files@.len(),
            fs == files.deep_view(),
            lab == opt_text(*label_to_add),
            forall|k: int| 0 <= k < j ==> lines_ok(#[trigger] fs[k]),
            out.deep_view() == fs.take(j as int).map_values(
                |ls: Seq<Seq<char>>|
                    modify_lines(ls, task_id as int, lab, toggle_status, toggle_date, *today),
            ),
            found <==> exists|k: int| 0 <= k < j && #[trigger] file_has(fs[k], task_id as int),
        decreases files.len() - j,
    {
        assert(files[j as int].deep_view() == fs[j as int]);
        let ghost ov = out.deep_view();
        match modify_file(&files[j], task_id, label_to_add, toggle_status, toggle_date, today) {
            Err(e) => {
                return Err(e);
            },
            Ok((v, hit)) => {
                let ghost vv = v.deep_view();
                out.push(v);
                assert(out.deep_view() =~~= ov.push(vv));
                assert(fs.take(j + 1).map_values(
                    |ls: Seq<Seq<char>>|
                        modify_lines(ls, task_id as int, lab, toggle_status, toggle_date, *today),
                ) =~= fs.take(j as int).map_values(
                    |ls: Seq<Seq<char>>|
                        modify_lines(ls, task_id as int, lab, toggle_status, toggle_date, *today),
                ).push(vv));
                if hit {
                    found = true;
                }
                assert(found <==> exists|k: int|
                    0 <= k < j + 1 && #[trigger] file_has(fs[k], task_id as int));
            },
        }
        j += 1;
    }
    assert(fs.take(j as int) =~= fs);
    if !found {
        return Err(TaskError::NotFound);
    }
    Ok(out)
}

/// Position `(f, i)` comes before `(g, k)`: an earlier file, or an earlier
/// line of the same file.
pub open spec fn before(f: int, i: int, g: int, k: int) -> bool {
    f < g || (f == g && i < k)
}

/// Every line before position `(f, i)` reads, and none holds the id.
pub open spec fn clear_before(fs: Seq<Seq<Seq<char>>>, id: int, f: int, i: int) -> bool {
    forall|g: int, k: int|
        0 <= g < fs.len() && 0 <= k < fs[g].len() && before(g, k, f, i) ==> (#[trigger] decode(
            fs[g][k],
        )) is Ok && !holds_id(fs[g][k], id)
}

/// The first task of this id, in file order and then line order. A line that
/// does not read, met before it, is an error.
pub fn get_task(task_id: i32, files: &Vec<Vec<String>>) -> (r: Result<Option<Task>, TaskError>)
    ensures
        ({
            let fs = files.deep_view();
            &&& r matches Ok(Some(t)) ==> exists|f: int, i: int|
                0 <= f < fs.len() && 0 <= i < fs[f].len() && #[trigger] task_of(fs[f][i]) == Some(
                    t@,
                ) && t.id == task_id && clear_before(fs, task_id as int, f, i)
            &&& r matches Ok(None) ==> tree_ok(fs) && no_file_has(fs, task_id as int)
            &&& r is Err ==> r == Err::<Option<Task>, TaskError>(TaskError::MalformedRecord)
                && exists|f: int, i: int|
                0 <= f < fs.len() && 0 <= i < fs[f].len() && (#[trigger] decode(fs[f][i])) is Err
                    && clear_before(fs, task_id as int, f, i)
        }),
{
    let ghost fs = files.deep_view();
    let mut j: usize = 0;
    while j < files.len()
        invariant
            j <= files@.len(),
            fs == files.deep_view(),
            clear_before(fs, task_id as int, j as int, 0),
        decreases files.len() - j,
    {
        let lines = &files[j];
        assert(lines.deep_view() == fs[j as int]);
        let mut i: usize = 0;
        while i < lines.len()
            invariant
                j < files@.len(),
                i <= lines@.len(),
                fs == files.deep_view(),
                lines.deep_view() == fs[j as int],
                clear_before(fs, task_id as int, j as int, i as int),
            decreases lines.len() - i,
        {
            assert(lines[i as int]@ == fs[j as int][i as int]);
            match parse_task(lines[i].as_str()) {
                Err(_) => {
                    assert((decode(fs[j as int][i as int])) is Err);
                    return Err(TaskError::MalformedRecord);
                },
                Ok(None) => {},
                Ok(Some(t)) => {
                    if t.id == task_id {
                        assert(task_of(fs[j as int][i as int]) == Some(t@));
                        return Ok(Some(t));
                    }
                },
            }
            assert(clear_before(fs, task_id as int, j as int, i + 1)) by {
                assert forall|g: int, k: int|
                    0 <= g < fs.len() && 0 <= k < fs[g].len() && before(g, k, j as int, i + 1)
                        implies (#[trigger] decode(fs[g][k])) is Ok && !holds_id(
                        fs[g][k],
                        task_id as int,
                    ) by {
                    if !before(g, k, j as int, i as int) {
                        assert(g == j && k == i);
                    }
                }
            }
            i += 1;
        }
        assert(clear_before(fs, task_id as int, j + 1, 0)) by {
            assert forall|g: int, k: int|
                0 <= g < fs.len() && 0 <= k < fs[g].len() && before(g, k, j + 1, 0) implies (
                #[trigger] decode(fs[g][k])) is Ok && !holds_id(fs[g][k], task_id as int) by {
                if g == j {
                    assert(before(g, k, j as int, i as int));
                }
            }
        }
        j += 1;
    }
    assert(tree_ok(fs)) by {
        assert forall|g: int| 0 <= g < fs.len() implies lines_ok(#[trigger] fs[g]) by {
            assert forall|k: int| 0 <= k < fs[g].len() implies (#[trigger] decode(fs[g][k])) is Ok by {
                assert(before(g, k, j as int, 0));
            }
        }
    }
    assert(no_file_has(fs, task_id as int)) by {
        assert forall|g: int| 0 <= g < fs.len() implies !file_has(#[trigger] fs[g], task_id as int) by {
            assert forall|k: int| 0 <= k < fs[g].len() implies !#[trigger] holds_id(fs[g][k], task_id as int) by {
                assert(before(g, k, j as int, 0));
                assert(decode(fs[g][k]) is Ok);
            }
        }
    }
    Ok(None)
}

/// What stays in a file on archiving: open tasks re-encoded, other lines as they were.
pub open spec fn archive_keep(l: Seq<char>) -> Option<Seq<char>> {
    match task_of(l) {
        Some(t) => if t.done {
            None
        } else {
            Some(encode(t))
        },
        None => Some(l),
    }
}

/// What goes to the archive: a done task's line, a space, the path of its file.
pub open spec fn archive_entry(l: Seq<char>, path: Seq<char>) -> Option<Seq<char>> {
    match task_of(l) {
        Some(t) => if t.done {
            Some(encode(t) + seq![' '] + path)
        } else {
            None
        },
        None => None,
    }
}

pub open spec fn archived(fs: Seq<Seq<Seq<char>>>, ps: Seq<Seq<char>>) -> Seq<Seq<char>>
    decreases fs.len(),
{
    if fs.len() == 0 {
        seq![]
    } else {
        archived(fs.drop_last(), ps.drop_last()) + fs.last().filter_map(
            |l: Seq<char>| archive_entry(l, ps[fs.len() - 1]),
        )
    }
}

fn archive_file(lines: &Vec<String>, path: &String, arch: &mut Vec<String>) -> (r: Result<
    Vec<String>,
    TaskError,
>)
    ensures
        r is Ok <==> lines_ok(lines.deep_view()),
        r is Err ==> r == Err::<Vec<String>, TaskError>(TaskError::MalformedRecord),
        r matches Ok(out) ==> out.deep_view() == lines.deep_view().filter_map(
            |l: Seq<char>| archive_keep(l),
        ) && final(arch).deep_view() == old(arch).deep_view() + lines.deep_view().filter_map(
            |l: Seq<char>| archive_entry(l, path@),
        ),
{
    let ghost ls = lines.deep_view();
    let ghost a0 = arch.deep_view();
    let pc = chars_of(path.as_str());
    let mut out: Vec<String> = Vec::new();
    let mut i: usize = 0;
    while i < lines.len()
        invariant
            i <= lines@.len(),
            ls == lines.deep_view(),
            a0 == old(arch).deep_view(),
            pc@ == path@,
            forall|j: int| 0 <= j < i ==> (#[trigger] decode(ls[j])) is Ok,
            out.deep_view() == ls.take(i as int).filter_map(|l: Seq<char>| archive_keep(l)),
            arch.deep_view() == a0 + ls.take(i as int).filter_map(
                |l: Seq<char>| archive_entry(l, path@),
            ),
        decreases lines.len() - i,
    {
        let ghost pre = ls.take(i as int);
        let ghost next = ls.take(i + 1);
        assert(next.drop_last() =~= pre);
        assert(next.last() == ls[i as int]);
        assert(lines[i as int]@ == ls[i as int]);
        let ghost ov = out.deep_view();
        let ghost av = arch.deep_view();
        match parse_task(lines[i].as_str()) {
            Err(_) => {
                return Err(TaskError::MalformedRecord);
            },
            Ok(None) => {
                out.push(lines[i].clone());
                assert(out.deep_view() =~= ov.push(ls[i as int]));
                assert(arch.deep_view() =~= a0 + next.filter_map(
                    |l: Seq<char>| archive_entry(l, path@),
                ));
            },
            Ok(Some(t)) => {
                let text = t.to_line();
                if t.is_done {
                    let mut cs = chars_of(text.as_str());
                    cs.push(' ');
                    let mut k: usize = 0;
                    let ghost base = cs@;
                    while k < pc.len()
                        invariant
                            k <= pc@.len(),
                            cs@ == base + pc@.take(k as int),
                        decreases pc.len() - k,
                    {
                        cs.push(pc[k]);
                        k += 1;
                        assert(cs@ =~= base + pc@.take(k as int));
                    }
                    assert(pc@.take(k as int) =~= pc@);
                    let entry = string_of(&cs);
                    assert(entry@ =~= encode(t@) + seq![' '] + path@);
                    arch.push(entry);
                    assert(arch.deep_view() =~= av.push(entry@));
                    assert(out.deep_view() =~= next.filter_map(|l: Seq<char>| archive_keep(l)));
                } else {
                    out.push(text);
                    assert(out.deep_view() =~= ov.push(encode(t@)));
                    assert(arch.deep_view() =~= a0 + next.filter_map(
                        |l: Seq<char>| archive_entry(l, path@),
                    ));
                }
            },
        }
        i += 1;
    }
    assert(ls.take(i as int) =~= ls);
    Ok(out)
}

/// Moves every done task out of the files. Each file comes back with its
/// open tasks re-encoded and its other lines as they were; the done tasks
/// come back as archive lines, each followed by a space and the path of the
/// file it came from, in file order and then line order.
pub fn archive_tasks(files: &Vec<Vec<String>>, paths: &Vec<String>) -> (r: Result<
    (Vec<Vec<String>>, Vec<String>),
    TaskError,
>)
    requires
        paths@.len() == files@.len(),
    ensures
        r is Ok <==> tree_ok(files.deep_view()),
        r is Err ==> r == Err::<(Vec<Vec<String>>, Vec<String>), TaskError>(
            TaskError::MalformedRecord,
        ),
        r matches Ok((out, arch)) ==> out.deep_view() == files.deep_view().map_values(
            |ls: Seq<Seq<char>>| ls.filter_map(|l: Seq<char>| archive_keep(l)),
        ) && arch.deep_view() == archived(files.deep_view(), paths.deep_view()),
{
    let ghost fs = files.deep_view();
    let ghost ps = paths.deep_view();
    let mut out: Vec<Vec<String>> = Vec::new();
    let mut arch: Vec<String> = Vec::new();
    let mut j: usize = 0;
    while j < files.len()
        invariant
            j <= files@.len(),
            paths@.len() == files@.len(),
            fs == files.deep_view(),
            ps == paths.deep_view(),
            forall|k: int| 0 <= k < j ==> lines_ok(#[trigger] fs[k]),
            out.deep_view() == fs.take(j as int).map_values(
                |ls: Seq<Seq<char>>| ls.filter_map(|l: Seq<char>| archive_keep(l)),
            ),
            arch.deep_view() == archived(fs.take(j as int), ps.take(j as int)),
        decreases files.len() - j,
    {
        assert(files[j as int].deep_view() == fs[j as int]);
        assert(paths[j as int]@ == ps[j as int]);
        assert(fs.take(j + 1).drop_last() =~= fs.take(j as int));
        assert(ps.take(j + 1).drop_last() =~= ps.take(j as int));
        let ghost ov = out.deep_view();
        match archive_file(&files[j], &paths[j], &mut arch) {
            Err(e) => {
                return Err(e);
            },
            Ok(v) => {
                let ghost vv = v.deep_view();
                out.push(v);
                assert(out.deep_view() =~~= ov.push(vv));
                assert(fs.take(j + 1).map_values(
                    |ls: Seq<Seq<char>>| ls.filter_map(|l: Seq<char>| archive_keep(l)),
                ) =~= fs.take(j as int).map_values(
                    |ls: Seq<Seq<char>>| ls.filter_map(|l: Seq<char>| archive_keep(l)),
                ).push(vv));
            },
        }
        j += 1;
    }
    assert(fs.take(j as int) =~= fs);
    assert(ps.take(j as int) =~= ps);
    Ok((out, arch))
}

/// The line a new task is read from: an open-task marker, a space, the description.
pub open spec fn new_task_line(desc: Seq<char>) -> Seq<char> {
    marker(false) + seq![' '] + desc
}

/// Reads a new task from its description, gives it the next id, and puts its
/// line first in the file; the other lines follow as they were.
pub fn add_task(task_str: &str, lines: &Vec<String>, stats: &mut TaskStats) -> (r: Result<
    Vec<String>,
    TaskError,
>)
    ensures
        ({
            let m0 = old(stats).max_id;
            let m1 = final(stats).max_id;
            match decode(new_task_line(task_str@)) {
                Err(e) => r == Err::<Vec<String>, TaskError>(e) && m1 == m0,
                Ok(None) => r == Err::<Vec<String>, TaskError>(TaskError::MalformedRecord) && m1 == m0,
                Ok(Some(t)) => if m0 == i32::MAX {
                    r == Err::<Vec<String>, TaskError>(TaskError::IdOverflow) && m1 == m0
                } else {
                    &&& m1 == m0 + 1
                    &&& r matches Ok(v) && v.deep_view() == seq![encode(TaskView { id: m0 + 1, ..t })]
                        + lines.deep_view()
                },
            }
        }),
{
    let mut cs: Vec<char> = Vec::new();
    cs.push('-');
    cs.push(' ');
    cs.push('[');
    cs.push(' ');
    cs.push(']');
    cs.push(' ');
    let desc = chars_of(task_str);
    let mut k: usize = 0;
    let ghost base = cs@;
    while k < desc.len()
        invariant
            k <= desc@.len(),
            cs@ == base + desc@.take(k as int),
        decreases desc.len() - k,
    {
        cs.push(desc[k]);
        k += 1;
        assert(cs@ =~= base + desc@.take(k as int));
    }
    assert(desc@.take(k as int) =~= desc@);
    let line = string_of(&cs);
    assert(line@ =~= new_task_line(task_str@));
    let mut t = match parse_task(line.as_str()) {
        Err(e) => {
            return Err(e);
        },
        Ok(None) => {
            return Err(TaskError::MalformedRecord);
        },
        Ok(Some(t)) => t,
    };
    if stats.max_id == i32::MAX {
        return Err(TaskError::IdOverflow);
    }
    stats.max_id = stats.max_id + 1;
    t.id = stats.max_id;
    let mut out: Vec<String> = Vec::new();
    out.push(t.to_line());
    let mut i: usize = 0;
    while i < lines.len()
        invariant
            i <= lines@.len(),
            out.deep_view() == seq![encode(t@)] + lines.deep_view().take(i as int),
        decreases lines.len() - i,
    {
        let ghost ov = out.deep_view();
        let c = lines[i].clone();
        assert(c@ == lines.deep_view()[i as int]);
        out.push(c);
        assert(out.deep_view() =~= ov.push(c@));
        assert(out.deep_view() =~= seq![encode(t@)] + lines.deep_view().take(i + 1));
        i += 1;
    }
    assert(lines.deep_view().take(i as int) =~= lines.deep_view());
    Ok(out)
}

/// A label some task of some file carries.
pub open spec fn tree_label(fs: Seq<Seq<Seq<char>>>, x: Seq<char>) -> bool {
    exists|j: int| 0 <= j < fs.len() && #[trigger] file_label(fs[j], x)
}

/// The labels that the tasks of all files carry, each once.
pub fn all_labels(files: &Vec<Vec<String>>) -> (r: Result<Vec<String>, TaskError>)
    ensures
        r is Ok <==> tree_ok(files.deep_view()),
        r is Err ==> r == Err::<Vec<String>, TaskError>(TaskError::MalformedRecord),
        r matches Ok(v) ==> v.deep_view().no_duplicates() && forall|x: Seq<char>|
            v.deep_view().contains(x) <==> tree_label(files.deep_view(), x),
{
    let ghost fs = files.deep_view();
    let mut out: Vec<String> = Vec::new();
    let mut j: usize = 0;
    while j < files.len()
        invariant
            j <= files@.len(),
            fs == files.deep_view(),
            forall|k: int| 0 <= k < j ==> lines_ok(#[trigger] fs[k]),
            out.deep_view().no_duplicates(),
            forall|x: Seq<char>|
                #[trigger] out.deep_view().contains(x) <==> tree_label(fs.take(j as int), x),
        decreases files.len() - j,
    {
        let ghost pre = fs.take(j as int);
        let ghost next = fs.take(j + 1);
        assert(files[j as int].deep_view() == fs[j as int]);
        let ghost ov = out.deep_view();
        assert(forall|x: Seq<char>| ov.contains(x) <==> tree_label(pre, x));
        match get_file_labels(&files[j]) {
            Err(e) => {
                return Err(e);
            },
            Ok(v) => {
                add_new_labels(&mut out, &v);
                assert forall|x: Seq<char>| out.deep_view().contains(x) <==> tree_label(next, x) by {
                    assert(ov.contains(x) <==> tree_label(pre, x));
                    assert(v.deep_view().contains(x) <==> file_label(fs[j as int], x));
                    if tree_label(next, x) {
                        let k = choose|k: int| 0 <= k < next.len() && #[trigger] file_label(next[k], x);
                        if k < j {
                            assert(pre[k] == next[k]);
                        } else {
                            assert(next[k] == fs[j as int]);
                        }
                    }
                    if tree_label(pre, x) {
                        let k = choose|k: int| 0 <= k < pre.len() && #[trigger] file_label(pre[k], x);
                        assert(pre[k] == next[k]);
                    }
                    if file_label(fs[j as int], x) {
                        assert(next[j as int] == fs[j as int]);
                    }
                }
            },
        }
        j += 1;
    }
    assert(fs.take(j as int) =~= fs);
    Ok(out)
}

/// What stays of a file on archiving.
pub open spec fn archive_kept(ls: Seq<Seq<char>>) -> Seq<Seq<char>> {
    ls.filter_map(|l: Seq<char>| archive_keep(l))
}

/// The lines of a file that begin with no status marker, in order.
pub open spec fn plain_lines(ls: Seq<Seq<char>>) -> Seq<Seq<char>> {
    ls.filter_map(|l: Seq<char>| if starts_with_marker(l) { None } else { Some(l) })
}

/// What a rewrite makes of line `l`: a line without a marker comes out as it
/// was; a marker line is dropped or comes out as a marker line.
pub open spec fn keeps_plain(o: Option<Seq<char>>, l: Seq<char>) -> bool {
    if starts_with_marker(l) {
        o matches Some(x) ==> starts_with_marker(x)
    } else {
        o == Some(l)
    }
}

proof fn lemma_encode_marker(t: TaskView)
    ensures
        starts_with_marker(encode(t)),
{
    assert(encode(t).take(5) =~= marker(t.done));
}

proof fn lemma_plain_push(ls: Seq<Seq<char>>, l: Seq<char>)
    ensures
        plain_lines(ls.push(l)) == if starts_with_marker(l) {
            plain_lines(ls)
        } else {
            plain_lines(ls).push(l)
        },
{
    assert(ls.push(l).drop_last() =~= ls);
    assert(ls.push(l).last() == l);
    if !starts_with_marker(l) {
        assert(plain_lines(ls) + seq![l] =~= plain_lines(ls).push(l));
    }
}

proof fn lemma_plain_filter_map(ls: Seq<Seq<char>>, g: spec_fn(Seq<char>) -> Option<Seq<char>>)
    requires
        forall|i: int| 0 <= i < ls.len() ==> keeps_plain(g(#[trigger] ls[i]), ls[i]),
    ensures
        plain_lines(ls.filter_map(g)) == plain_lines(ls),
    decreases ls.len(),
{
    if ls.len() > 0 {
        let init = ls.drop_last();
        let l = ls.last();
        assert(keeps_plain(g(ls[ls.len() - 1]), ls[ls.len() - 1]));
        assert forall|i: int| 0 <= i < init.len() implies keeps_plain(g(#[trigger] init[i]), init[i]) by {
            assert(init[i] == ls[i]);
        }
        lemma_plain_filter_map(init, g);
        assert(init.push(l) =~= ls);
        lemma_plain_push(init, l);
        match g(l) {
            Some(x) => {
                assert(ls.filter_map(g) == init.filter_map(g) + seq![x]);
                assert(init.filter_map(g) + seq![x] =~= init.filter_map(g).push(x));
                lemma_plain_push(init.filter_map(g), x);
            },
            None => {
                assert(ls.filter_map(g) == init.filter_map(g));
            },
        }
    }
}

proof fn lemma_plain_line(l: Seq<char>, st: IdState, id: int, verbatim: bool, label: Option<Seq<char>>, toggle_status: bool, toggle_date: bool, today: CalDate)
    ensures
        keeps_plain(Some(init_line(st, l)), l),
        keeps_plain(Some(modify_line(l, id, label, toggle_status, toggle_date, today)), l),
        keeps_plain(kept_line(l, id, verbatim), l),
        keeps_plain(archive_keep(l), l),
{
    if let Some(t) = task_of(l) {
        lemma_encode_marker(t);
        lemma_encode_marker(renumber(t, st));
        lemma_encode_marker(modified(t, label, toggle_status, toggle_date, today));
    }
}

proof fn lemma_plain_init(st: IdState, ls: Seq<Seq<char>>)
    ensures
        plain_lines(init_lines(st, ls)) == plain_lines(ls),
    decreases ls.len(),
{
    if ls.len() > 0 {
        let init = ls.drop_last();
        let l = ls.last();
        lemma_plain_init(st, init);
        let s = lines_state(st, init);
        lemma_plain_line(l, s, 0, false, None, false, false, CalDate { year: 0, month: 1, day: 1 });
        assert(init.push(l) =~= ls);
        lemma_plain_push(init, l);
        lemma_plain_push(init_lines(st, init), init_line(s, l));
    }
}

/// Every rewrite of a file keeps its lines that begin with no status marker:
/// all of them, unchanged, in their order. That holds for initialisation,
/// modification, removal and moving, and archiving.
pub proof fn lemma_plain_lines_kept(
    ls: Seq<Seq<char>>,
    st: IdState,
    id: int,
    verbatim: bool,
    label: Option<Seq<char>>,
    toggle_status: bool,
    toggle_date: bool,
    today: CalDate,
)
    ensures
        plain_lines(init_lines(st, ls)) == plain_lines(ls),
        plain_lines(modify_lines(ls, id, label, toggle_status, toggle_date, today)) == plain_lines(ls),
        plain_lines(kept_lines(ls, id, verbatim)) == plain_lines(ls),
        plain_lines(archive_kept(ls)) == plain_lines(ls),
{
    lemma_plain_init(st, ls);
    let gm = |l: Seq<char>| Some(modify_line(l, id, label, toggle_status, toggle_date, today));
    let gk = |l: Seq<char>| kept_line(l, id, verbatim);
    let ga = |l: Seq<char>| archive_keep(l);
    assert forall|i: int| 0 <= i < ls.len() implies keeps_plain(gm(#[trigger] ls[i]), ls[i])
        && keeps_plain(gk(ls[i]), ls[i]) && keeps_plain(ga(ls[i]), ls[i]) by {
        lemma_plain_line(ls[i], st, id, verbatim, label, toggle_status, toggle_date, today);
    }
    lemma_plain_filter_map(ls, gm);
    lemma_plain_filter_map(ls, gk);
    lemma_plain_filter_map(ls, ga);
    assert(ls.filter_map(gm) =~= modify_lines(ls, id, label, toggle_status, toggle_date, today))
        by {
        lemma_filter_map_some(ls, gm);
    }
    assert(ls.filter_map(gk) == kept_lines(ls, id, verbatim));
    assert(ls.filter_map(ga) == archive_kept(ls));
}

proof fn lemma_filter_map_some(ls: Seq<Seq<char>>, g: spec_fn(Seq<char>) -> Option<Seq<char>>)
    requires
        forall|l: Seq<char>| #[trigger] g(l) is Some,
    ensures
        ls.filter_map(g) =~= ls.map_values(|l: Seq<char>| g(l)->0),
    decreases ls.len(),
{
    if ls.len() > 0 {
        lemma_filter_map_some(ls.drop_last(), g);
        assert(g(ls.last()) is Some);
        assert(ls.filter_map(g) == ls.drop_last().filter_map(g) + seq![g(ls.last())->0]);
    }
}

/// After archiving, no done task is left in a file: each line that stays is
/// either no task or an open one.
pub proof fn lemma_archive_leaves_no_done(ls: Seq<Seq<char>>)
    requires
        lines_ok(ls),
    ensures
        forall|k: int|
            0 <= k < archive_kept(ls).len() ==> !(#[trigger] task_of(archive_kept(ls)[k]) matches Some(
                t,
            ) && t.done),
    decreases ls.len(),
{
    let g = |l: Seq<char>| archive_keep(l);
    if ls.len() > 0 {
        let init = ls.drop_last();
        let l = ls.last();
        assert(lines_ok(init)) by {
            assert forall|i: int| 0 <= i < init.len() implies (#[trigger] decode(init[i])) is Ok by {
                assert(init[i] == ls[i]);
            }
        }
        assert(decode(ls[ls.len() - 1]) is Ok);
        lemma_archive_leaves_no_done(init);
        let out = archive_kept(ls);
        let out0 = archive_kept(init);
        match g(l) {
            Some(x) => {
                assert(out == out0 + seq![x]);
                match task_of(l) {
                    Some(t) => {
                        crate::ids::lemma_decoded_fits(l);
                        crate::task::lemma_decode_encode_id(t);
                        assert(x == encode(t));
                        assert(!t.done);
                    },
                    None => {
                        assert(x == l);
                    },
                }
                assert forall|k: int| 0 <= k < out.len() implies !(#[trigger] task_of(out[k]) matches Some(
                    t,
                ) && t.done) by {
                    if k < out0.len() {
                        assert(out[k] == out0[k]);
                    }
                }
            },
            None => {
                assert(out == out0);
            },
        }
    }
}

/// A line that does not begin with a status marker is no task, and every
/// rewrite gives it back as it was: initialisation and modification write it
/// unchanged, removal and moving keep it and never take it, archiving keeps it
/// in its file and sends nothing of it to the archive.
pub proof fn lemma_pass_through(
    l: Seq<char>,
    st: IdState,
    id: int,
    verbatim: bool,
    label: Option<Seq<char>>,
    toggle_status: bool,
    toggle_date: bool,
    today: CalDate,
    path: Seq<char>,
)
    requires
        !starts_with_marker(l),
    ensures
        decode(l) == Ok::<Option<TaskView>, TaskError>(None),
        init_line(st, l) == l,
        modify_line(l, id, label, toggle_status, toggle_date, today) == l,
        kept_line(l, id, verbatim) == Some(l),
        taken_line(l, id, verbatim) is None,
        archive_keep(l) == Some(l),
        archive_entry(l, path) is None,
{
}

/// The due filter keeps a task due today and drops one due on any later day,
/// the next day among them.
pub proof fn lemma_due_boundary(t: TaskView, today: CalDate, later: CalDate)
    requires
        !later.spec_le(today),
    ensures
        t.date == Some(today) ==> selected(t, true, None, today),
        t.date == Some(later) ==> !selected(t, true, None, today),
{
}

/// Filtering by a label gives exactly the tasks whose labels hold that exact
/// label: no task without it, and every task of the file with it.
pub proof fn lemma_label_filter(ls: Seq<Seq<char>>, label: Seq<char>, today: CalDate)
    ensures
        forall|k: int|
            0 <= k < file_selection(ls, false, Some(label), today).len() ==> (#[trigger] file_selection(
                ls,
                false,
                Some(label),
                today,
            )[k]).labels.contains(label),
        forall|i: int|
            0 <= i < ls.len() && #[trigger] carries(ls[i], label) ==> file_selection(
                ls,
                false,
                Some(label),
                today,
            ).contains(task_of(ls[i]).unwrap()),
    decreases ls.len(),
{
    if ls.len() > 0 {
        let init = ls.drop_last();
        lemma_label_filter(init, label, today);
        let sel = file_selection(ls, false, Some(label), today);
        let sel0 = file_selection(init, false, Some(label), today);
        match pick(ls.last(), false, Some(label), today) {
            Some(t) => {
                assert(sel == sel0 + seq![t]);
            },
            None => {
                assert(sel == sel0);
            },
        }
        assert forall|k: int| 0 <= k < sel.len() implies (#[trigger] sel[k]).labels.contains(label) by {
            if k < sel0.len() {
                assert(sel[k] == sel0[k]);
            }
        }
        assert forall|i: int| 0 <= i < ls.len() && #[trigger] carries(ls[i], label) implies sel.contains(
            task_of(ls[i]).unwrap(),
        ) by {
            if i < init.len() {
                assert(init[i] == ls[i]);
                assert(carries(init[i], label));
                let k = choose|k: int| 0 <= k < sel0.len() && sel0[k] == task_of(init[i]).unwrap();
                assert(sel[k] == sel0[k]);
            } else {
                assert(sel[sel.len() - 1] == task_of(ls[i]).unwrap());
            }
        }
    }
}

} // verus!
