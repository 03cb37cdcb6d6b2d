use vstd::prelude::*;

use crate::task::Task;
use crate::task::TaskView;
use crate::timestamp::ts_le;

verus! {

/// The views of a vector of records.
pub open spec fn task_views(s: Seq<Task>) -> Seq<TaskView> {
    s.map_values(|t: Task| t@)
}

/// Records in reverse-chronological order: every later entry is at or
/// before every earlier one.
pub open spec fn sorted_desc(s: Seq<TaskView>) -> bool {
    forall|i: int, j: int| 0 <= i < j < s.len() ==> s[j].created_at.le(s[i].created_at)
}

/// Where a stable descending insertion puts `t`: behind every entry that is
/// at or after `t`'s instant.
pub open spec fn insert_pos(s: Seq<TaskView>, t: TaskView) -> int
    decreases s.len(),
{
    if s.len() > 0 && t.created_at.le(s[0].created_at) {
        1 + insert_pos(s.drop_first(), t)
    } else {
        0
    }
}

pub open spec fn insert_desc(s: Seq<TaskView>, t: TaskView) -> Seq<TaskView> {
    s.insert(insert_pos(s, t), t)
}

/// Stable insertion sort, newest first: entries with equal instants keep
/// their input order.
pub open spec fn sort_desc(s: Seq<TaskView>) -> Seq<TaskView>
    decreases s.len(),
{
    if s.len() == 0 {
        s
    } else {
        insert_desc(sort_desc(s.drop_last()), s.last())
    }
}

pub proof fn lemma_insert_pos(s: Seq<TaskView>, t: TaskView)
    ensures
        0 <= insert_pos(s, t) <= s.len(),
        forall|k: int| 0 <= k < insert_pos(s, t) ==> t.created_at.le(s[k].created_at),
        insert_pos(s, t) < s.len() ==> !t.created_at.le(s[insert_pos(s, t)].created_at),
    decreases s.len(),
{
    if s.len() > 0 && t.created_at.le(s[0].created_at) {
        lemma_insert_pos(s.drop_first(), t);
        assert forall|k: int| 0 <= k < insert_pos(s, t) implies t.created_at.le(
            s[k].created_at,
        ) by {
            if k > 0 {
                assert(s.drop_first()[k - 1] == s[k]);
            }
        }
        if insert_pos(s, t) < s.len() {
            assert(s.drop_first()[insert_pos(s, t) - 1] == s[insert_pos(s, t)]);
        }
    }
}

/// Inserting into a sorted sequence keeps it sorted and adds exactly the
/// one entry.
pub proof fn lemma_insert_desc(s: Seq<TaskView>, t: TaskView)
    requires
        sorted_desc(s),
    ensures
        sorted_desc(insert_desc(s, t)),
        insert_desc(s, t).to_multiset() == s.to_multiset().insert(t),
        insert_desc(s, t).len() == s.len() + 1,
    decreases s.len(),
{
    let p = insert_pos(s, t);
    lemma_insert_pos(s, t);
    vstd::seq_lib::to_multiset_insert(s, p, t);
    let r = s.insert(p, t);
    assert(r =~= s.take(p) + seq![t] + s.skip(p));
    assert forall|i: int, j: int| 0 <= i < j < r.len() implies r[j].created_at.le(
        r[i].created_at,
    ) by {
        if j < p {
            assert(r[i] == s[i] && r[j] == s[j]);
        } else if j == p {
            assert(r[i] == s[i] && r[j] == t);
        } else {
            assert(r[j] == s[j - 1]);
            if i < p {
                assert(r[i] == s[i]);
                if i < j - 1 {
                } else {
                }
            } else if i == p {
                assert(r[i] == t);
                assert(p < s.len());
                assert(!t.created_at.le(s[p].created_at));
                assert(s[j - 1].created_at.le(s[p].created_at) || j - 1 == p);
            } else {
                assert(r[i] == s[i - 1]);
            }
        }
    }
}

/// The sort returns a reverse-chronologically ordered permutation of its
/// input: nothing is lost, duplicated, or invented.
pub proof fn lemma_sort_desc(s: Seq<TaskView>)
    ensures
        sorted_desc(sort_desc(s)),
        sort_desc(s).to_multiset() == s.to_multiset(),
        sort_desc(s).len() == s.len(),
    decreases s.len(),
{
    if s.len() > 0 {
        lemma_sort_desc(s.drop_last());
        lemma_insert_desc(sort_desc(s.drop_last()), s.last());
        assert(s =~= s.drop_last().push(s.last()));
        vstd::seq_lib::to_multiset_build(s.drop_last(), s.last());
    }
}

/// Insert one record into a vector sorted newest-first, behind its equals.
fn insert_sorted(out: &mut Vec<Task>, t: Task)
    requires
        t@.wf(),
        forall|i: int| 0 <= i < old(out)@.len() ==> old(out)@[i]@.wf(),
        sorted_desc(task_views(old(out)@)),
    ensures
        task_views(final(out)@) == insert_desc(task_views(old(out)@), t@),
        forall|i: int| 0 <= i < final(out)@.len() ==> final(out)@[i]@.wf(),
{
    let ghost s = task_views(out@);
    let mut j: usize = 0;
    while j < out.len() && ts_le(&t.created_at, &out[j].created_at)
        invariant
            j <= out@.len(),
            s == task_views(out@),
            t@.wf(),
            forall|i: int| 0 <= i < out@.len() ==> out@[i]@.wf(),
            forall|k: int| 0 <= k < j ==> t@.created_at.le(s[k].created_at),
        decreases out@.len() - j,
    {
        proof {
            assert(s[j as int] == out@[j as int]@);
        }
        j = j + 1;
    }
    proof {
        lemma_insert_pos(s, t@);
        if (j as int) < insert_pos(s, t@) {
            assert(t@.created_at.le(s[j as int].created_at));
            assert(s[j as int] == out@[j as int]@);
            assert(false);
        }
        if insert_pos(s, t@) < j as int {
            assert(!t@.created_at.le(s[insert_pos(s, t@)].created_at));
            assert(false);
        }
    }
    out.insert(j, t);
    proof {
        assert(task_views(out@) =~= insert_desc(s, t@));
    }
}

/// Order the records newest first, stably.
pub fn sort_tasks(tasks: Vec<Task>) -> (r: Vec<Task>)
    requires
        forall|i: int| 0 <= i < tasks@.len() ==> tasks@[i]@.wf(),
    ensures
        task_views(r@) == sort_desc(task_views(tasks@)),
        forall|i: int| 0 <= i < r@.len() ==> r@[i]@.wf(),
{
    let ghost all = task_views(tasks@);
    let ghost n = tasks@.len() as int;
    let mut rest = tasks;
    let mut out: Vec<Task> = Vec::new();
    proof {
        assert(task_views(rest@) =~= all.skip(0));
        assert(all.take(0) =~= Seq::<TaskView>::empty());
        assert(task_views(out@) =~= Seq::<TaskView>::empty());
    }
    while rest.len() > 0
        invariant
            rest@.len() <= n,
            n == all.len(),
            all == task_views(tasks@),
            task_views(rest@) == all.skip(n - rest@.len()),
            task_views(out@) == sort_desc(all.take(n - rest@.len())),
            forall|i: int| 0 <= i < rest@.len() ==> rest@[i]@.wf(),
            forall|i: int| 0 <= i < out@.len() ==> out@[i]@.wf(),
        decreases rest@.len(),
    {
        let ghost i = n - rest@.len();
        let ghost r0 = rest@;
        let t = rest.remove(0);
        proof {
            assert(t@ == all.skip(i)[0]);
            assert(all.skip(i)[0] == all[i]);
            assert(all[i].wf());
            assert(r0.remove(0) =~= r0.drop_first());
            assert(task_views(rest@) =~= task_views(r0).drop_first());
            assert(task_views(r0).drop_first() =~= all.skip(i + 1));
            lemma_sort_desc(all.take(i));
        }
        insert_sorted(&mut out, t);
        proof {
            assert(all.take(i + 1).drop_last() =~= all.take(i));
            assert(all.take(i + 1).last() == all[i]);
            assert(task_views(out@) == insert_desc(sort_desc(all.take(i)), all[i]));
        }
    }
    proof {
        assert(all.take(n) =~= all);
    }
    out
}

} // verus!
