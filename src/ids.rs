use crate::store::{
    advance, files_max, files_state, init_files, init_line, init_lines, lines_max,
    lines_ok, lines_state, lines_tasks, renumber, start_state, task_of, tree_ok, IdState,
};
use crate::task::{decode, encode, lemma_decode_encode_id, TaskView};
use crate::text::int_of;
use vstd::prelude::*;

verus! {

/// The tasks of all files, in file order and then line order.
pub open spec fn files_tasks(fs: Seq<Seq<Seq<char>>>) -> Seq<TaskView>
    decreases fs.len(),
{
    if fs.len() == 0 {
        seq![]
    } else {
        files_tasks(fs.drop_last()) + lines_tasks(fs.last())
    }
}

/// No two tasks share an id.
pub open spec fn ids_unique(ts: Seq<TaskView>) -> bool {
    forall|i: int, j: int| 0 <= i < j < ts.len() ==> ts[i].id != ts[j].id
}

/// No two tasks share an id, but for tasks that have none yet (`-1`).
pub open spec fn ids_unique_but_unassigned(ts: Seq<TaskView>) -> bool {
    forall|i: int, j: int| 0 <= i < j < ts.len() && ts[i].id == ts[j].id ==> ts[i].id == -1
}

pub open spec fn tasks_state(st: IdState, ts: Seq<TaskView>) -> IdState
    decreases ts.len(),
{
    if ts.len() == 0 {
        st
    } else {
        advance(tasks_state(st, ts.drop_last()), ts.last())
    }
}

/// The ids that initialisation gives the tasks, in order.
pub open spec fn renum_ids(st: IdState, ts: Seq<TaskView>) -> Seq<int>
    decreases ts.len(),
{
    if ts.len() == 0 {
        seq![]
    } else {
        renum_ids(st, ts.drop_last()).push(renumber(ts.last(), tasks_state(st, ts.drop_last())).id)
    }
}

pub open spec fn ids_of(ts: Seq<TaskView>) -> Seq<int> {
    ts.map_values(|t: TaskView| t.id)
}

pub open spec fn all_fit(ids: Seq<int>) -> bool {
    forall|i: int| 0 <= i < ids.len() ==> i32::MIN <= #[trigger] ids[i] <= i32::MAX
}

/// A task read from a line has an id that fits an `i32`.
pub proof fn lemma_decoded_fits(l: Seq<char>)
    ensures
        task_of(l) matches Some(t) ==> t.id_fits(),
{
    if let Some(t) = task_of(l) {
        let ws = crate::text::words(l.skip(5));
        if ws.len() > 0 && ws[0][0] == '&' {
            assert(int_of(ws[0].skip(1)) == Some(t.id));
        }
    }
}

proof fn lemma_tasks_concat(st: IdState, a: Seq<TaskView>, b: Seq<TaskView>)
    ensures
        tasks_state(st, a + b) == tasks_state(tasks_state(st, a), b),
        renum_ids(st, a + b) == renum_ids(st, a) + renum_ids(tasks_state(st, a), b),
    decreases b.len(),
{
    if b.len() == 0 {
        assert(a + b =~= a);
        assert(renum_ids(st, a) + renum_ids(tasks_state(st, a), b) =~= renum_ids(st, a));
    } else {
        assert((a + b).drop_last() =~= a + b.drop_last());
        assert((a + b).last() == b.last());
        lemma_tasks_concat(st, a, b.drop_last());
        assert(renum_ids(st, a + b) =~= renum_ids(st, a) + renum_ids(tasks_state(st, a), b));
    }
}

proof fn lemma_fit_prefix(ids: Seq<int>, k: int)
    requires
        all_fit(ids),
        0 <= k <= ids.len(),
    ensures
        all_fit(ids.take(k)),
        all_fit(ids.skip(k)),
{
    assert forall|i: int| 0 <= i < ids.take(k).len() implies i32::MIN <= #[trigger] ids.take(
        k,
    )[i] <= i32::MAX by {
        assert(ids.take(k)[i] == ids[i]);
    }
    assert forall|i: int| 0 <= i < ids.skip(k).len() implies i32::MIN <= #[trigger] ids.skip(
        k,
    )[i] <= i32::MAX by {
        assert(ids.skip(k)[i] == ids[i + k]);
    }
}

proof fn lemma_init_lines(st: IdState, ls: Seq<Seq<char>>)
    requires
        lines_ok(ls),
    ensures
        lines_state(st, ls) == tasks_state(st, lines_tasks(ls)),
        all_fit(renum_ids(st, lines_tasks(ls))) ==> lines_ok(init_lines(st, ls)) && ids_of(
            lines_tasks(init_lines(st, ls)),
        ) == renum_ids(st, lines_tasks(ls)),
    decreases ls.len(),
{
    if ls.len() == 0 {
        assert(ids_of(lines_tasks(init_lines(st, ls))) =~= renum_ids(st, lines_tasks(ls)));
    } else {
        let init = ls.drop_last();
        let l = ls.last();
        assert(lines_ok(init)) by {
            assert forall|i: int| 0 <= i < init.len() implies (#[trigger] decode(init[i])) is Ok by {
                assert(init[i] == ls[i]);
            }
        }
        assert(decode(ls[ls.len() - 1]) is Ok);
        lemma_init_lines(st, init);
        let s = lines_state(st, init);
        let out = init_lines(st, ls);
        assert(out.drop_last() == init_lines(st, init));
        assert(out.last() == init_line(s, l));
        match task_of(l) {
            Some(t) => {
                assert(lines_tasks(ls) == lines_tasks(init) + seq![t]);
                assert(lines_tasks(ls).drop_last() =~= lines_tasks(init));
                assert(lines_tasks(ls).last() == t);
                let r = renum_ids(st, lines_tasks(ls));
                if all_fit(r) {
                    assert(r.drop_last() == renum_ids(st, lines_tasks(init)));
                    lemma_fit_prefix(r, r.len() - 1);
                    assert(r.take(r.len() - 1) =~= r.drop_last());
                    let n = renumber(t, s);
                    assert(r[r.len() - 1] == n.id);
                    assert(n.id_fits());
                    lemma_decode_encode_id(n);
                    let u = task_of(encode(n));
                    assert(lines_ok(out)) by {
                        assert forall|i: int| 0 <= i < out.len() implies (#[trigger] decode(
                            out[i],
                        )) is Ok by {
                            if i < out.len() - 1 {
                                assert(out[i] == init_lines(st, init)[i]);
                            }
                        }
                    }
                    assert(out.drop_last() =~= init_lines(st, init));
                    let ut = u.unwrap();
                    assert(lines_tasks(out) == lines_tasks(init_lines(st, init)) + seq![ut]);
                    assert(ids_of(lines_tasks(out)) =~= ids_of(lines_tasks(init_lines(st, init))).push(
                        ut.id,
                    ));
                }
            },
            None => {
                assert(lines_tasks(ls) == lines_tasks(init));
                if all_fit(renum_ids(st, lines_tasks(ls))) {
                    assert(out.last() == l);
                    assert(lines_ok(out)) by {
                        assert forall|i: int| 0 <= i < out.len() implies (#[trigger] decode(
                            out[i],
                        )) is Ok by {
                            if i < out.len() - 1 {
                                assert(out[i] == init_lines(st, init)[i]);
                            }
                        }
                    }
                    assert(lines_tasks(out) == lines_tasks(init_lines(st, init)));
                }
            },
        }
    }
}

proof fn lemma_init_files(st: IdState, fs: Seq<Seq<Seq<char>>>)
    requires
        tree_ok(fs),
    ensures
        files_state(st, fs) == tasks_state(st, files_tasks(fs)),
        all_fit(renum_ids(st, files_tasks(fs))) ==> tree_ok(init_files(st, fs)) && ids_of(
            files_tasks(init_files(st, fs)),
        ) == renum_ids(st, files_tasks(fs)),
    decreases fs.len(),
{
    if fs.len() == 0 {
        assert(ids_of(files_tasks(init_files(st, fs))) =~= renum_ids(st, files_tasks(fs)));
    } else {
        let init = fs.drop_last();
        let last = fs.last();
        assert(tree_ok(init)) by {
            assert forall|j: int| 0 <= j < init.len() implies lines_ok(#[trigger] init[j]) by {
                assert(init[j] == fs[j]);
            }
        }
        assert(lines_ok(fs[fs.len() - 1]));
        lemma_init_files(st, init);
        let s = files_state(st, init);
        lemma_init_lines(s, last);
        lemma_tasks_concat(st, files_tasks(init), lines_tasks(last));
        let r = renum_ids(st, files_tasks(fs));
        if all_fit(r) {
            let r1 = renum_ids(st, files_tasks(init));
            let r2 = renum_ids(s, lines_tasks(last));
            assert(r == r1 + r2);
            lemma_fit_prefix(r, r1.len() as int);
            assert(r.take(r1.len() as int) =~= r1);
            assert(r.skip(r1.len() as int) =~= r2);
            let out = init_files(st, fs);
            assert(out.drop_last() == init_files(st, init));
            assert(out.last() == init_lines(s, last));
            assert(tree_ok(out)) by {
                assert forall|j: int| 0 <= j < out.len() implies lines_ok(#[trigger] out[j]) by {
                    if j < out.len() - 1 {
                        assert(out[j] == init_files(st, init)[j]);
                    }
                }
            }
            assert(ids_of(files_tasks(out)) =~= ids_of(files_tasks(init_files(st, init))) + ids_of(
                lines_tasks(init_lines(s, last)),
            ));
        }
    }
}

proof fn lemma_lines_max(m: int, ls: Seq<Seq<char>>)
    ensures
        lines_max(m, ls) >= m,
        forall|i: int|
            0 <= i < lines_tasks(ls).len() ==> (#[trigger] lines_tasks(ls)[i]).id <= lines_max(
                m,
                ls,
            ),
    decreases ls.len(),
{
    if ls.len() > 0 {
        let init = ls.drop_last();
        lemma_lines_max(m, init);
        let ts = lines_tasks(ls);
        assert forall|i: int| 0 <= i < ts.len() implies (#[trigger] ts[i]).id <= lines_max(m, ls) by {
            match task_of(ls.last()) {
                Some(t) => {
                    assert(ts == lines_tasks(init) + seq![t]);
                    if i < lines_tasks(init).len() {
                        assert(ts[i] == lines_tasks(init)[i]);
                    }
                },
                None => {
                    assert(ts == lines_tasks(init));
                },
            }
        }
    }
}

proof fn lemma_files_max(m: int, fs: Seq<Seq<Seq<char>>>)
    ensures
        files_max(m, fs) >= m,
        forall|i: int|
            0 <= i < files_tasks(fs).len() ==> (#[trigger] files_tasks(fs)[i]).id <= files_max(
                m,
                fs,
            ),
    decreases fs.len(),
{
    if fs.len() > 0 {
        let init = fs.drop_last();
        lemma_files_max(m, init);
        let m1 = files_max(m, init);
        lemma_lines_max(m1, fs.last());
        let ts = files_tasks(fs);
        let a = files_tasks(init);
        let b = lines_tasks(fs.last());
        assert(ts == a + b);
        assert forall|i: int| 0 <= i < ts.len() implies (#[trigger] ts[i]).id <= files_max(m, fs) by {
            if i < a.len() {
                assert(ts[i] == a[i]);
            } else {
                assert(ts[i] == b[i - a.len()]);
            }
        }
    }
}

proof fn lemma_lines_tasks_fit(ls: Seq<Seq<char>>)
    ensures
        forall|i: int| 0 <= i < lines_tasks(ls).len() ==> (#[trigger] lines_tasks(ls)[i]).id_fits(),
    decreases ls.len(),
{
    if ls.len() > 0 {
        let init = ls.drop_last();
        lemma_lines_tasks_fit(init);
        lemma_decoded_fits(ls.last());
        let ts = lines_tasks(ls);
        assert forall|i: int| 0 <= i < ts.len() implies (#[trigger] ts[i]).id_fits() by {
            match task_of(ls.last()) {
                Some(t) => {
                    assert(ts == lines_tasks(init) + seq![t]);
                    if i < lines_tasks(init).len() {
                        assert(ts[i] == lines_tasks(init)[i]);
                    }
                },
                None => {
                    assert(ts == lines_tasks(init));
                },
            }
        }
    }
}

proof fn lemma_files_tasks_fit(fs: Seq<Seq<Seq<char>>>)
    ensures
        forall|i: int| 0 <= i < files_tasks(fs).len() ==> (#[trigger] files_tasks(fs)[i]).id_fits(),
    decreases fs.len(),
{
    if fs.len() > 0 {
        let init = fs.drop_last();
        lemma_files_tasks_fit(init);
        lemma_lines_tasks_fit(fs.last());
        let ts = files_tasks(fs);
        let a = files_tasks(init);
        let b = lines_tasks(fs.last());
        assert(ts == a + b);
        assert forall|i: int| 0 <= i < ts.len() implies (#[trigger] ts[i]).id_fits() by {
            if i < a.len() {
                assert(ts[i] == a[i]);
            } else {
                assert(ts[i] == b[i - a.len()]);
            }
        }
    }
}

proof fn lemma_renum_distinct(st: IdState, ts: Seq<TaskView>)
    requires
        !st.unassigned_seen,
        st.max >= 0,
        forall|i: int| 0 <= i < ts.len() ==> (#[trigger] ts[i]).id <= st.max,
        forall|i: int| 0 <= i < ts.len() ==> (#[trigger] ts[i]).id_fits(),
        ids_unique_but_unassigned(ts),
    ensures
        ({
            let r = renum_ids(st, ts);
            let s = tasks_state(st, ts);
            &&& r.len() == ts.len()
            &&& s.max >= st.max
            &&& forall|i: int, j: int| 0 <= i < j < r.len() ==> r[i] != r[j]
            &&& forall|i: int| 0 <= i < r.len() ==> #[trigger] r[i] <= s.max
            &&& forall|i: int|
                0 <= i < r.len() ==> #[trigger] r[i] == ts[i].id || (st.max < r[i] && ts[i].id
                    == -1)
            &&& s.unassigned_seen <==> exists|i: int| 0 <= i < r.len() && #[trigger] r[i] == -1
        }),
    decreases ts.len(),
{
    if ts.len() > 0 {
        let init = ts.drop_last();
        let t = ts.last();
        assert forall|i: int, j: int|
            0 <= i < j < init.len() && init[i].id == init[j].id implies init[i].id == -1 by {
            assert(init[i] == ts[i] && init[j] == ts[j]);
        }
        assert forall|i: int| 0 <= i < init.len() implies (#[trigger] init[i]).id <= st.max
            && init[i].id_fits() by {
            assert(init[i] == ts[i]);
        }
        lemma_renum_distinct(st, init);
        let r0 = renum_ids(st, init);
        let s0 = tasks_state(st, init);
        let r = renum_ids(st, ts);
        let n = renumber(t, s0).id;
        assert(r == r0.push(n));
        assert(t == ts[ts.len() - 1]);
        assert forall|i: int| 0 <= i < r0.len() implies r0[i] != n by {
            assert(r[i] == r0[i]);
            if t.id == -1 && s0.unassigned_seen {
                assert(r0[i] <= s0.max);
            } else if t.id == -1 {
                if r0[i] == -1 {
                    assert(exists|k: int| 0 <= k < r0.len() && #[trigger] r0[k] == -1);
                }
            } else {
                if r0[i] == init[i].id {
                    assert(init[i] == ts[i]);
                    assert(ts[i].id != ts[ts.len() - 1].id);
                }
            }
        }
        let s = tasks_state(st, ts);
        assert forall|i: int, j: int| 0 <= i < j < r.len() implies r[i] != r[j] by {
            if j < r0.len() {
                assert(r[i] == r0[i] && r[j] == r0[j]);
            } else {
                assert(r[i] == r0[i]);
            }
        }
        assert forall|i: int| 0 <= i < r.len() implies #[trigger] r[i] <= s.max by {
            if i < r0.len() {
                assert(r[i] == r0[i]);
            }
        }
        assert forall|i: int|
            0 <= i < r.len() implies #[trigger] r[i] == ts[i].id || (st.max < r[i] && ts[i].id
                == -1) by {
            if i < r0.len() {
                assert(r[i] == r0[i]);
                assert(init[i] == ts[i]);
            }
        }
        if s.unassigned_seen {
            if s0.unassigned_seen {
                let k = choose|k: int| 0 <= k < r0.len() && #[trigger] r0[k] == -1;
                assert(r[k] == -1);
            } else {
                assert(r[r.len() - 1] == -1);
            }
        }
        if exists|i: int| 0 <= i < r.len() && #[trigger] r[i] == -1 {
            let k = choose|k: int| 0 <= k < r.len() && #[trigger] r[k] == -1;
            if k < r0.len() {
                assert(r0[k] == -1);
            }
        }
    }
}

/// After initialisation no two tasks in the files share an id, where before
/// it only tasks without an id (`-1`) shared one. Every line written reads back.
pub proof fn lemma_init_ids_unique(fs: Seq<Seq<Seq<char>>>)
    requires
        tree_ok(fs),
        ids_unique_but_unassigned(files_tasks(fs)),
        files_state(start_state(fs), fs).max <= i32::MAX,
    ensures
        tree_ok(init_files(start_state(fs), fs)),
        ids_unique(files_tasks(init_files(start_state(fs), fs))),
{
    let st = start_state(fs);
    let ts = files_tasks(fs);
    lemma_files_max(0, fs);
    lemma_files_tasks_fit(fs);
    lemma_init_files(st, fs);
    lemma_renum_distinct(st, ts);
    let r = renum_ids(st, ts);
    let s = tasks_state(st, ts);
    assert(all_fit(r)) by {
        assert forall|i: int| 0 <= i < r.len() implies i32::MIN <= #[trigger] r[i] <= i32::MAX by {
            assert(ts[i].id_fits());
        }
    }
    let out = files_tasks(init_files(st, fs));
    assert(ids_of(out) == r);
    assert forall|i: int, j: int| 0 <= i < j < out.len() implies out[i].id != out[j].id by {
        assert(ids_of(out)[i] == out[i].id);
        assert(ids_of(out)[j] == out[j].id);
    }
}

} // verus!
