//! Chart tasks and their renderings: sections of tasks, the Mermaid chart
//! with its reference table, and the ASCII table.
use crate::days::Days;
use crate::priority::Priority;
use crate::text::{
    chars_of, concat_all, decimal, join_with, lemma_concat_all_full, lemma_concat_all_step, lemma_map_chars_avoids, lemma_map_chars_len, lemma_map_chars_step,
    map_chars, push_char, push_decimal, push_str, str_eq,
};
use crate::questions::Objective;
use crate::writer::{
    objectives_to_schedule, sched_action_views, sched_question_views, schedule_of, ObjectiveSchedule, ScheduleView, ScheduledActionView, ScheduledQuestion,
    ScheduledQuestionView,
};
use vstd::prelude::*;

verus! {

/// One bar of the chart: an objective's remaining work.
#[derive(Debug, Clone)]
pub struct GanttTask {
    pub name: String,
    pub days: Days,
    pub priority: Priority,
    pub group: Option<String>,
}

/// The abstract value of a task.
pub struct TaskView {
    pub name: Seq<char>,
    pub days: Days,
    pub priority: Priority,
    pub group: Option<Seq<char>>,
}

pub open spec fn opt_string_view(s: Option<String>) -> Option<Seq<char>> {
    match s {
        Some(g) => Some(g@),
        None => None,
    }
}

impl View for GanttTask {
    type V = TaskView;

    open spec fn view(&self) -> TaskView {
        TaskView { name: self.name@, days: self.days, priority: self.priority, group: opt_string_view(self.group) }
    }
}

pub open spec fn task_views(s: Seq<GanttTask>) -> Seq<TaskView> {
    s.map_values(|t: GanttTask| t@)
}

impl GanttTask {
    pub fn new(name: String, days: Days, priority: Priority, group: Option<String>) -> (t: GanttTask)
        ensures
            t@ == (TaskView { name: name@, days, priority, group: opt_string_view(group) }),
    {
        GanttTask { name, days, priority, group }
    }
}

/// The forms in which the chart is rendered.
#[derive(Debug, Clone, Copy, PartialEq, Eq, Structural)]
pub enum GanttFormat {
    Ascii,
    Markdown,
    Json,
}


/// A time in days and its rendering as text.
pub struct DayText {
    pub days: Days,
    pub text: String,
}

pub open spec fn day_text_views(s: Seq<DayText>) -> Seq<(Days, Seq<char>)> {
    s.map_values(|d: DayText| (d.days, d.text@))
}

/// The rendering of `d`: the text of its first entry, empty without one.
pub open spec fn day_label(labels: Seq<(Days, Seq<char>)>, d: Days) -> Seq<char>
    decreases labels.len(),
{
    if labels.len() == 0 {
        Seq::empty()
    } else if labels[0].0 == d {
        labels[0].1
    } else {
        day_label(labels.drop_first(), d)
    }
}

/// The rendering of `d` in the table.
pub fn day_text(labels: &Vec<DayText>, d: Days) -> (s: &str)
    ensures
        s@ == day_label(day_text_views(labels@), d),
{
    let ghost lv = day_text_views(labels@);
    assert(lv.skip(0) =~= lv);
    let mut j: usize = 0;
    while j < labels.len()
        invariant
            j <= labels@.len(),
            lv == day_text_views(labels@),
            day_label(lv, d) == day_label(lv.skip(j as int), d),
        decreases labels@.len() - j,
    {
        assert(lv.skip(j as int)[0] == (labels@[j as int].days, labels@[j as int].text@));
        if labels[j].days.bits == d.bits {
            return labels[j].text.as_str();
        }
        assert(lv.skip(j as int).drop_first() =~= lv.skip(j + 1));
        j = j + 1;
    }
    proof {
        reveal_strlit("");
    }
    ""
}

/// The section of tasks that have no group.
pub open spec fn ungrouped_label() -> Seq<char> {
    "Ungrouped"@
}

/// The section a task belongs to: its group, or `Ungrouped`.
pub open spec fn group_label_of(t: TaskView) -> Seq<char> {
    match t.group {
        Some(g) => g,
        None => ungrouped_label(),
    }
}

pub fn group_label(t: &GanttTask) -> (s: &str)
    ensures
        s@ == group_label_of(t@),
{
    match &t.group {
        Some(g) => g.as_str(),
        None => {
            proof {
                reveal_strlit("Ungrouped");
            }
            "Ungrouped"
        },
    }
}

/// The section labels of the first `n` tasks, in order of first appearance.
pub open spec fn section_keys_upto(ts: Seq<TaskView>, n: nat) -> Seq<Seq<char>>
    decreases n,
{
    if n == 0 {
        Seq::empty()
    } else {
        let prev = section_keys_upto(ts, (n - 1) as nat);
        let key = group_label_of(ts[n - 1]);
        if prev.contains(key) {
            prev
        } else {
            prev.push(key)
        }
    }
}

/// The indices among the first `n` tasks whose score is `score` and whose
/// section is `key`, in order.
pub open spec fn members_with_score(ts: Seq<TaskView>, key: Seq<char>, score: u8, n: nat) -> Seq<usize>
    decreases n,
{
    if n == 0 {
        Seq::empty()
    } else {
        let prev = members_with_score(ts, key, score, (n - 1) as nat);
        if group_label_of(ts[n - 1]) == key && ts[n - 1].priority.score_of() == score {
            prev.push((n - 1) as usize)
        } else {
            prev
        }
    }
}

/// A section's tasks, highest priority first, keeping their order within a
/// priority (the stable sort by descending score).
pub open spec fn section_members(ts: Seq<TaskView>, key: Seq<char>) -> Seq<usize> {
    members_with_score(ts, key, 4, ts.len()) + members_with_score(ts, key, 3, ts.len())
        + members_with_score(ts, key, 2, ts.len()) + members_with_score(ts, key, 1, ts.len())
        + members_with_score(ts, key, 0, ts.len())
}

/// The sum of the priority scores of the tasks at the indices.
pub open spec fn index_score_sum(ts: Seq<TaskView>, idxs: Seq<usize>) -> nat
    decreases idxs.len(),
{
    if idxs.len() == 0 {
        0
    } else {
        index_score_sum(ts, idxs.drop_last()) + ts[idxs.last() as int].priority.score_of() as nat
    }
}

/// A section: its label and the indices of its tasks.
pub type SectionView = (Seq<char>, Seq<usize>);

/// Inserts `x` into `sorted` (ordered by descending score sum) after every
/// section whose sum is at least that of `x`.
pub open spec fn insert_by_sum(ts: Seq<TaskView>, sorted: Seq<SectionView>, x: SectionView) -> Seq<SectionView>
    decreases sorted.len(),
{
    if sorted.len() == 0 {
        seq![x]
    } else if index_score_sum(ts, sorted.last().1) >= index_score_sum(ts, x.1) {
        sorted.push(x)
    } else {
        insert_by_sum(ts, sorted.drop_last(), x).push(sorted.last())
    }
}

/// The stable sort of sections by descending score sum.
pub open spec fn sort_by_sum(ts: Seq<TaskView>, s: Seq<SectionView>) -> Seq<SectionView>
    decreases s.len(),
{
    if s.len() == 0 {
        s
    } else {
        insert_by_sum(ts, sort_by_sum(ts, s.drop_last()), s.last())
    }
}

/// The tasks grouped into sections: sections in order of first appearance,
/// each section's tasks stably sorted by descending priority, then the
/// sections stably sorted by descending total priority score.
pub open spec fn grouped_sorted_of(ts: Seq<TaskView>) -> Seq<SectionView> {
    sort_by_sum(
        ts,
        section_keys_upto(ts, ts.len()).map_values(|k: Seq<char>| (k, section_members(ts, k))),
    )
}

/// Every section's score sum fits in a `u32`.
pub open spec fn section_sums_fit(ts: Seq<TaskView>) -> bool {
    forall|k: Seq<char>| index_score_sum(ts, #[trigger] section_members(ts, k)) <= u32::MAX
}

pub open spec fn section_views(s: Seq<(String, Vec<usize>)>) -> Seq<SectionView> {
    s.map_values(|e: (String, Vec<usize>)| (e.0@, e.1@))
}

fn members_with(tasks: &[GanttTask], key: &str, score: u8, out: &mut Vec<usize>)
    ensures
        final(out)@ == old(out)@ + members_with_score(task_views(tasks@), key@, score, tasks@.len() as nat),
{
    let ghost ts = task_views(tasks@);
    let mut i: usize = 0;
    while i < tasks.len()
        invariant
            i <= tasks@.len(),
            ts == task_views(tasks@),
            out@ == old(out)@ + members_with_score(ts, key@, score, i as nat),
        decreases tasks@.len() - i,
    {
        assert(ts[i as int] == tasks@[i as int]@);
        if str_eq(group_label(&tasks[i]), key) && tasks[i].priority.score() == score {
            out.push(i);
        }
        assert(out@ =~= old(out)@ + members_with_score(ts, key@, score, (i + 1) as nat));
        i = i + 1;
    }
}

fn sum_scores(tasks: &[GanttTask], idxs: &Vec<usize>) -> (s: u32)
    requires
        forall|j: int| 0 <= j < idxs@.len() ==> idxs@[j] < tasks@.len(),
        index_score_sum(task_views(tasks@), idxs@) <= u32::MAX,
    ensures
        s == index_score_sum(task_views(tasks@), idxs@),
{
    let ghost ts = task_views(tasks@);
    let mut s: u32 = 0;
    let mut j: usize = 0;
    while j < idxs.len()
        invariant
            j <= idxs@.len(),
            ts == task_views(tasks@),
            forall|t: int| 0 <= t < idxs@.len() ==> idxs@[t] < tasks@.len(),
            index_score_sum(ts, idxs@) <= u32::MAX,
            s == index_score_sum(ts, idxs@.take(j as int)),
        decreases idxs@.len() - j,
    {
        assert(idxs@.take(j + 1).drop_last() =~= idxs@.take(j as int));
        proof {
            lemma_index_score_sum_prefix(ts, idxs@, (j + 1) as nat);
        }
        let t = idxs[j];
        assert(ts[t as int] == tasks@[t as int]@);
        s = s + tasks[t].priority.score() as u32;
        j = j + 1;
    }
    assert(idxs@.take(j as int) =~= idxs@);
    s
}

proof fn lemma_index_score_sum_prefix(ts: Seq<TaskView>, idxs: Seq<usize>, k: nat)
    requires
        k <= idxs.len(),
    ensures
        index_score_sum(ts, idxs.take(k as int)) <= index_score_sum(ts, idxs),
    decreases idxs.len(),
{
    if k < idxs.len() {
        assert(idxs.drop_last().take(k as int) =~= idxs.take(k as int));
        lemma_index_score_sum_prefix(ts, idxs.drop_last(), k);
    } else {
        assert(idxs.take(k as int) =~= idxs);
    }
}

proof fn lemma_members_in_range(ts: Seq<TaskView>, key: Seq<char>, score: u8, n: nat)
    requires
        n <= ts.len(),
    ensures
        forall|j: int| 0 <= j < members_with_score(ts, key, score, n).len() ==> #[trigger] members_with_score(ts, key, score, n)[j] < n,
    decreases n,
{
    if n > 0 {
        lemma_members_in_range(ts, key, score, (n - 1) as nat);
        let prev = members_with_score(ts, key, score, (n - 1) as nat);
        let m = members_with_score(ts, key, score, n);
        assert forall|j: int| 0 <= j < m.len() implies #[trigger] m[j] < n by {
            if j < prev.len() {
                assert(m[j] == prev[j]);
            }
        }
    }
}

/// The tasks grouped into sections and ordered for rendering: each section
/// is a label and the indices of its tasks.
pub fn grouped_sorted(tasks: &[GanttTask]) -> (sections: Vec<(String, Vec<usize>)>)
    requires
        section_sums_fit(task_views(tasks@)),
    ensures
        section_views(sections@) == grouped_sorted_of(task_views(tasks@)),
{
    let ghost ts = task_views(tasks@);
    // Labels in order of first appearance.
    let mut keys: Vec<String> = Vec::new();
    let mut i: usize = 0;
    while i < tasks.len()
        invariant
            i <= tasks@.len(),
            ts == task_views(tasks@),
            keys@.map_values(|k: String| k@) == section_keys_upto(ts, i as nat),
        decreases tasks@.len() - i,
    {
        assert(ts[i as int] == tasks@[i as int]@);
        let label = group_label(&tasks[i]);
        let ghost kv = keys@.map_values(|k: String| k@);
        let mut j: usize = 0;
        let mut found = false;
        while j < keys.len()
            invariant
                j <= keys@.len(),
                kv == keys@.map_values(|k: String| k@),
                found == exists|t: int| 0 <= t < j && kv[t] == label@,
            decreases keys@.len() - j,
        {
            assert(kv[j as int] == keys@[j as int]@);
            if str_eq(keys[j].as_str(), label) {
                found = true;
            }
            j = j + 1;
        }
        assert(found == kv.contains(label@));
        if !found {
            keys.push(String::from_str(label));
            assert(keys@.map_values(|k: String| k@) =~= kv.push(label@));
        }
        i = i + 1;
    }
    // Each section's members, by descending priority.
    let ghost keyv = section_keys_upto(ts, tasks@.len() as nat);
    let mut unsorted: Vec<(String, Vec<usize>)> = Vec::new();
    let mut sums: Vec<u32> = Vec::new();
    let mut k: usize = 0;
    while k < keys.len()
        invariant
            k <= keys@.len(),
            ts == task_views(tasks@),
            keys@.map_values(|k: String| k@) == keyv,
            section_sums_fit(ts),
            unsorted@.len() == k,
            sums@.len() == k,
            forall|t: int| 0 <= t < k ==> #[trigger] section_views(unsorted@)[t] == (keyv[t], section_members(ts, keyv[t])),
            forall|t: int| 0 <= t < k ==> #[trigger] sums@[t] == index_score_sum(ts, unsorted@[t].1@),
        decreases keys@.len() - k,
    {
        assert(keyv[k as int] == keys@[k as int]@);
        let key = keys[k].as_str();
        let mut members: Vec<usize> = Vec::new();
        members_with(tasks, key, 4, &mut members);
        members_with(tasks, key, 3, &mut members);
        members_with(tasks, key, 2, &mut members);
        members_with(tasks, key, 1, &mut members);
        members_with(tasks, key, 0, &mut members);
        assert(members@ =~= section_members(ts, keyv[k as int]));
        proof {
            let m = members@;
            lemma_members_in_range(ts, keyv[k as int], 4, ts.len());
            lemma_members_in_range(ts, keyv[k as int], 3, ts.len());
            lemma_members_in_range(ts, keyv[k as int], 2, ts.len());
            lemma_members_in_range(ts, keyv[k as int], 1, ts.len());
            lemma_members_in_range(ts, keyv[k as int], 0, ts.len());
            assert(index_score_sum(ts, section_members(ts, keyv[k as int])) <= u32::MAX);
        }
        let sum = sum_scores(tasks, &members);
        let ghost before = unsorted@;
        unsorted.push((String::from_str(key), members));
        sums.push(sum);
        assert forall|t: int| 0 <= t < k + 1 implies #[trigger] section_views(unsorted@)[t] == (keyv[t], section_members(ts, keyv[t])) by {
            if t < k {
                assert(unsorted@[t] == before[t]);
                assert(section_views(before)[t] == (keyv[t], section_members(ts, keyv[t])));
            }
        }
        k = k + 1;
    }
    assert(section_views(unsorted@) =~= keyv.map_values(|k: Seq<char>| (k, section_members(ts, k))));
    // Stable insertion sort by descending sum.
    let ghost all = section_views(unsorted@);
    let mut sorted: Vec<(String, Vec<usize>)> = Vec::new();
    let mut sorted_sums: Vec<u32> = Vec::new();
    let mut rest = unsorted;
    let mut rest_sums = sums;
    let ghost n = all.len();
    assert(all.skip(0) =~= all);
    assert(all.take(0) =~= Seq::<SectionView>::empty());
    assert(section_views(sorted@) =~= Seq::<SectionView>::empty());
    while rest.len() > 0
        invariant
            ts == task_views(tasks@),
            n == all.len(),
            rest@.len() <= n,
            rest_sums@.len() == rest@.len(),
            sorted_sums@.len() == sorted@.len(),
            section_views(rest@) == all.skip(n - rest@.len()),
            section_views(sorted@) == sort_by_sum(ts, all.take(n - rest@.len())),
            forall|t: int| 0 <= t < rest@.len() ==> #[trigger] rest_sums@[t] == index_score_sum(ts, rest@[t].1@),
            forall|t: int| 0 <= t < sorted@.len() ==> #[trigger] sorted_sums@[t] == index_score_sum(ts, sorted@[t].1@),
        decreases rest@.len(),
    {
        let ghost c = (n - rest@.len()) as int;
        let ghost sv = section_views(sorted@);
        assert(section_views(rest@)[0] == (rest@[0].0@, rest@[0].1@));
        assert(rest_sums@[0] == index_score_sum(ts, rest@[0].1@));
        let ghost before_rest = rest@;
        let x = rest.remove(0);
        assert(section_views(rest@) =~= section_views(before_rest).drop_first());
        let xs = rest_sums.remove(0);
        let mut p = sorted.len();
        while p > 0 && sorted_sums[p - 1] < xs
            invariant
                p <= sorted@.len(),
                sorted_sums@.len() == sorted@.len(),
                forall|j: int| p <= j < sorted@.len() ==> sorted_sums@[j] < xs,
            decreases p,
        {
            p = p - 1;
        }
        proof {
            assert forall|j: int| p <= j < sv.len() implies index_score_sum(ts, sv[j].1) < index_score_sum(ts, x.1@) by {
                assert(sv[j] == (sorted@[j].0@, sorted@[j].1@));
                assert(sorted_sums@[j] == index_score_sum(ts, sorted@[j].1@));
            }
            if p > 0 {
                assert(sv[p - 1] == (sorted@[p - 1].0@, sorted@[p - 1].1@));
                assert(sorted_sums@[p - 1] == index_score_sum(ts, sorted@[p - 1].1@));
            }
            lemma_insert_by_sum(ts, sv, (x.0@, x.1@), p as int);
            assert(all.take(c + 1).drop_last() =~= all.take(c));
            assert(all[c] == (x.0@, x.1@));
        }
        let ghost before_sorted = sorted@;
        let ghost before_sums = sorted_sums@;
        sorted.insert(p, x);
        sorted_sums.insert(p, xs);
        assert(section_views(sorted@) =~= sv.take(p as int).push((x.0@, x.1@)) + sv.skip(p as int));
        assert(section_views(rest@) =~= all.skip(c + 1));
        assert forall|t: int| 0 <= t < sorted@.len() implies #[trigger] sorted_sums@[t] == index_score_sum(ts, sorted@[t].1@) by {
            if t < p {
                assert(sorted@[t] == before_sorted[t]);
                assert(before_sums[t] == index_score_sum(ts, before_sorted[t].1@));
            } else if t > p {
                assert(sorted@[t] == before_sorted[t - 1]);
                assert(before_sums[t - 1] == index_score_sum(ts, before_sorted[t - 1].1@));
            }
        }
    }
    assert(all.take(n as int) =~= all);
    sorted
}

proof fn lemma_insert_by_sum(ts: Seq<TaskView>, s: Seq<SectionView>, x: SectionView, p: int)
    requires
        0 <= p <= s.len(),
        forall|j: int| p <= j < s.len() ==> index_score_sum(ts, #[trigger] s[j].1) < index_score_sum(ts, x.1),
        p > 0 ==> index_score_sum(ts, s[p - 1].1) >= index_score_sum(ts, x.1),
    ensures
        insert_by_sum(ts, s, x) == s.take(p).push(x) + s.skip(p),
    decreases s.len(),
{
    if s.len() == 0 {
        assert(s.take(p).push(x) + s.skip(p) =~= seq![x]);
    } else if p == s.len() {
        assert(s.take(p).push(x) + s.skip(p) =~= s.push(x));
    } else {
        assert(index_score_sum(ts, s[s.len() - 1].1) < index_score_sum(ts, x.1));
        lemma_insert_by_sum(ts, s.drop_last(), x, p);
        assert(s.drop_last().take(p) =~= s.take(p));
        assert((s.drop_last().take(p).push(x) + s.drop_last().skip(p)).push(s.last()) =~= s.take(p).push(x) + s.skip(p));
    }
}


proof fn lemma_insert_by_sum_from(ts: Seq<TaskView>, sorted: Seq<SectionView>, x: SectionView)
    ensures
        forall|k: int| 0 <= k < insert_by_sum(ts, sorted, x).len() ==> #[trigger] insert_by_sum(ts, sorted, x)[k] == x
            || sorted.contains(insert_by_sum(ts, sorted, x)[k]),
    decreases sorted.len(),
{
    let r = insert_by_sum(ts, sorted, x);
    if sorted.len() == 0 {
    } else if index_score_sum(ts, sorted.last().1) >= index_score_sum(ts, x.1) {
        assert forall|k: int| 0 <= k < r.len() implies #[trigger] r[k] == x || sorted.contains(r[k]) by {
            if k < sorted.len() {
                assert(r[k] == sorted[k]);
            }
        }
    } else {
        lemma_insert_by_sum_from(ts, sorted.drop_last(), x);
        let r0 = insert_by_sum(ts, sorted.drop_last(), x);
        assert forall|k: int| 0 <= k < r.len() implies #[trigger] r[k] == x || sorted.contains(r[k]) by {
            if k < r0.len() {
                assert(r[k] == r0[k]);
                if r0[k] != x {
                    let w = choose|w: int| 0 <= w < sorted.drop_last().len() && sorted.drop_last()[w] == r0[k];
                    assert(sorted[w] == r0[k]);
                }
            } else {
                assert(r[k] == sorted[sorted.len() - 1]);
            }
        }
    }
}

proof fn lemma_sort_by_sum_from(ts: Seq<TaskView>, s: Seq<SectionView>)
    ensures
        forall|k: int| 0 <= k < sort_by_sum(ts, s).len() ==> s.contains(#[trigger] sort_by_sum(ts, s)[k]),
    decreases s.len(),
{
    if s.len() > 0 {
        lemma_sort_by_sum_from(ts, s.drop_last());
        let prev = sort_by_sum(ts, s.drop_last());
        lemma_insert_by_sum_from(ts, prev, s.last());
        let r = sort_by_sum(ts, s);
        assert forall|k: int| 0 <= k < r.len() implies s.contains(#[trigger] r[k]) by {
            if r[k] == s.last() {
                assert(s[s.len() - 1] == r[k]);
            } else {
                let w = choose|w: int| 0 <= w < prev.len() && prev[w] == r[k];
                let v = choose|v: int| 0 <= v < s.drop_last().len() && s.drop_last()[v] == prev[w];
                assert(s[v] == r[k]);
            }
        }
    }
}

/// Every index in every section names a task.
pub proof fn lemma_grouped_sorted_in_range(ts: Seq<TaskView>)
    ensures
        forall|j: int, t: int|
            0 <= j < grouped_sorted_of(ts).len() && 0 <= t < grouped_sorted_of(ts)[j].1.len()
                ==> #[trigger] grouped_sorted_of(ts)[j].1[t] < ts.len(),
{
    let keys = section_keys_upto(ts, ts.len());
    let unsorted = keys.map_values(|k: Seq<char>| (k, section_members(ts, k)));
    lemma_sort_by_sum_from(ts, unsorted);
    assert forall|j: int, t: int|
        0 <= j < grouped_sorted_of(ts).len() && 0 <= t < grouped_sorted_of(ts)[j].1.len()
        implies #[trigger] grouped_sorted_of(ts)[j].1[t] < ts.len() by {
        let sec = grouped_sorted_of(ts)[j];
        let w = choose|w: int| 0 <= w < unsorted.len() && unsorted[w] == sec;
        let k = keys[w];
        lemma_members_in_range(ts, k, 4, ts.len());
        lemma_members_in_range(ts, k, 3, ts.len());
        lemma_members_in_range(ts, k, 2, ts.len());
        lemma_members_in_range(ts, k, 1, ts.len());
        lemma_members_in_range(ts, k, 0, ts.len());
        let m4 = members_with_score(ts, k, 4, ts.len());
        let m3 = members_with_score(ts, k, 3, ts.len());
        let m2 = members_with_score(ts, k, 2, ts.len());
        let m1 = members_with_score(ts, k, 1, ts.len());
        let m0 = members_with_score(ts, k, 0, ts.len());
        assert(sec.1 == m4 + m3 + m2 + m1 + m0);
        if t < m4.len() {
            assert(sec.1[t] == m4[t]);
        } else if t < m4.len() + m3.len() {
            assert(sec.1[t] == m3[t - m4.len()]);
        } else if t < m4.len() + m3.len() + m2.len() {
            assert(sec.1[t] == m2[t - m4.len() - m3.len()]);
        } else if t < m4.len() + m3.len() + m2.len() + m1.len() {
            assert(sec.1[t] == m1[t - m4.len() - m3.len() - m2.len()]);
        } else {
            assert(sec.1[t] == m0[t - m4.len() - m3.len() - m2.len() - m1.len()]);
        }
    }
}


/// The priority scores of the tasks at the indices never rise along them.
pub open spec fn scores_descending(ts: Seq<TaskView>, idxs: Seq<usize>) -> bool {
    forall|a: int, b: int|
        0 <= a < b < idxs.len() ==> ts[#[trigger] idxs[a] as int].priority.score_of() >= ts[#[trigger] idxs[b] as int].priority.score_of()
}

/// The score sums of the sections never rise along them.
pub open spec fn sums_descending(ts: Seq<TaskView>, secs: Seq<SectionView>) -> bool {
    forall|a: int, b: int|
        0 <= a < b < secs.len() ==> index_score_sum(ts, (#[trigger] secs[a]).1) >= index_score_sum(ts, (#[trigger] secs[b]).1)
}

proof fn lemma_members_props(ts: Seq<TaskView>, key: Seq<char>, score: u8, n: nat)
    requires
        n <= ts.len() <= usize::MAX,
    ensures
        forall|j: int|
            0 <= j < members_with_score(ts, key, score, n).len() ==> {
                let i = #[trigger] members_with_score(ts, key, score, n)[j];
                &&& group_label_of(ts[i as int]) == key
                &&& ts[i as int].priority.score_of() == score
            },
    decreases n,
{
    if n > 0 {
        lemma_members_props(ts, key, score, (n - 1) as nat);
        let prev = members_with_score(ts, key, score, (n - 1) as nat);
        let m = members_with_score(ts, key, score, n);
        assert forall|j: int| 0 <= j < m.len() implies {
            let i = #[trigger] m[j];
            &&& group_label_of(ts[i as int]) == key
            &&& ts[i as int].priority.score_of() == score
        } by {
            if j < prev.len() {
                assert(m[j] == prev[j]);
            }
        }
    }
}

proof fn lemma_concat_descending(ts: Seq<TaskView>, x: Seq<usize>, y: Seq<usize>, k: u8)
    requires
        scores_descending(ts, x),
        forall|a: int| 0 <= a < x.len() ==> ts[#[trigger] x[a] as int].priority.score_of() >= k,
        forall|b: int| 0 <= b < y.len() ==> ts[#[trigger] y[b] as int].priority.score_of() == k,
    ensures
        scores_descending(ts, x + y),
        forall|a: int| 0 <= a < (x + y).len() ==> ts[#[trigger] (x + y)[a] as int].priority.score_of() >= k,
{
    let z = x + y;
    assert forall|a: int, b: int| 0 <= a < b < z.len() implies ts[#[trigger] z[a] as int].priority.score_of()
        >= ts[#[trigger] z[b] as int].priority.score_of() by {
        if b < x.len() {
            assert(z[a] == x[a] && z[b] == x[b]);
        } else if a < x.len() {
            assert(z[a] == x[a] && z[b] == y[b - x.len()]);
        } else {
            assert(z[a] == y[a - x.len()] && z[b] == y[b - x.len()]);
        }
    }
    assert forall|a: int| 0 <= a < z.len() implies ts[#[trigger] z[a] as int].priority.score_of() >= k by {
        if a < x.len() {
            assert(z[a] == x[a]);
        } else {
            assert(z[a] == y[a - x.len()]);
        }
    }
}

proof fn lemma_same_key(ts: Seq<TaskView>, x: Seq<usize>, y: Seq<usize>, key: Seq<char>)
    requires
        forall|a: int| 0 <= a < x.len() ==> group_label_of(ts[#[trigger] x[a] as int]) == key,
        forall|b: int| 0 <= b < y.len() ==> group_label_of(ts[#[trigger] y[b] as int]) == key,
    ensures
        forall|a: int| 0 <= a < (x + y).len() ==> group_label_of(ts[#[trigger] (x + y)[a] as int]) == key,
{
    assert forall|a: int| 0 <= a < (x + y).len() implies group_label_of(ts[#[trigger] (x + y)[a] as int]) == key by {
        if a < x.len() {
            assert((x + y)[a] == x[a]);
        } else {
            assert((x + y)[a] == y[a - x.len()]);
        }
    }
}

/// A section holds only tasks with its label, highest priority first.
pub proof fn section_members_descending(ts: Seq<TaskView>, key: Seq<char>)
    requires
        ts.len() <= usize::MAX,
    ensures
        scores_descending(ts, section_members(ts, key)),
        forall|j: int|
            0 <= j < section_members(ts, key).len() ==> group_label_of(ts[#[trigger] section_members(ts, key)[j] as int]) == key,
{
    let n = ts.len();
    lemma_members_props(ts, key, 4, n);
    lemma_members_props(ts, key, 3, n);
    lemma_members_props(ts, key, 2, n);
    lemma_members_props(ts, key, 1, n);
    lemma_members_props(ts, key, 0, n);
    let m4 = members_with_score(ts, key, 4, n);
    let m3 = members_with_score(ts, key, 3, n);
    let m2 = members_with_score(ts, key, 2, n);
    let m1 = members_with_score(ts, key, 1, n);
    let m0 = members_with_score(ts, key, 0, n);
    assert(scores_descending(ts, m4));
    lemma_concat_descending(ts, m4, m3, 3);
    lemma_concat_descending(ts, m4 + m3, m2, 2);
    lemma_concat_descending(ts, m4 + m3 + m2, m1, 1);
    lemma_concat_descending(ts, m4 + m3 + m2 + m1, m0, 0);
    lemma_same_key(ts, m4, m3, key);
    lemma_same_key(ts, m4 + m3, m2, key);
    lemma_same_key(ts, m4 + m3 + m2, m1, key);
    lemma_same_key(ts, m4 + m3 + m2 + m1, m0, key);
}

proof fn lemma_insert_by_sum_descending(ts: Seq<TaskView>, sorted: Seq<SectionView>, x: SectionView)
    requires
        sums_descending(ts, sorted),
    ensures
        sums_descending(ts, insert_by_sum(ts, sorted, x)),
        insert_by_sum(ts, sorted, x).len() == sorted.len() + 1,
    decreases sorted.len(),
{
    let r = insert_by_sum(ts, sorted, x);
    if sorted.len() == 0 {
    } else if index_score_sum(ts, sorted.last().1) >= index_score_sum(ts, x.1) {
        assert forall|a: int, b: int| 0 <= a < b < r.len() implies index_score_sum(ts, (#[trigger] r[a]).1)
            >= index_score_sum(ts, (#[trigger] r[b]).1) by {
            assert(r[a] == sorted[a]);
            if b < sorted.len() {
                assert(r[b] == sorted[b]);
            } else {
                if a < sorted.len() - 1 {
                    assert(index_score_sum(ts, sorted[a].1) >= index_score_sum(ts, sorted[sorted.len() - 1].1));
                }
            }
        }
    } else {
        let d = sorted.drop_last();
        assert(sums_descending(ts, d)) by {
            assert forall|a: int, b: int| 0 <= a < b < d.len() implies index_score_sum(ts, (#[trigger] d[a]).1)
                >= index_score_sum(ts, (#[trigger] d[b]).1) by {
                assert(d[a] == sorted[a] && d[b] == sorted[b]);
            }
        }
        lemma_insert_by_sum_descending(ts, d, x);
        lemma_insert_by_sum_from(ts, d, x);
        let r0 = insert_by_sum(ts, d, x);
        let last = sorted.last();
        assert forall|a: int, b: int| 0 <= a < b < r.len() implies index_score_sum(ts, (#[trigger] r[a]).1)
            >= index_score_sum(ts, (#[trigger] r[b]).1) by {
            assert(r[a] == r0[a]);
            if b < r0.len() {
                assert(r[b] == r0[b]);
            } else {
                assert(r[b] == last);
                if r0[a] != x {
                    let w = choose|w: int| 0 <= w < d.len() && d[w] == r0[a];
                    assert(sorted[w] == r0[a]);
                    assert(index_score_sum(ts, sorted[w].1) >= index_score_sum(ts, sorted[sorted.len() - 1].1));
                }
            }
        }
    }
}

proof fn lemma_sort_by_sum_descending(ts: Seq<TaskView>, s: Seq<SectionView>)
    ensures
        sums_descending(ts, sort_by_sum(ts, s)),
    decreases s.len(),
{
    if s.len() > 0 {
        lemma_sort_by_sum_descending(ts, s.drop_last());
        lemma_insert_by_sum_descending(ts, sort_by_sum(ts, s.drop_last()), s.last());
    }
}

/// The sections come in order of descending score sum; each holds exactly
/// the tasks with its label, highest priority first.
pub proof fn grouped_sorted_is_ordered(ts: Seq<TaskView>)
    requires
        ts.len() <= usize::MAX,
    ensures
        sums_descending(ts, grouped_sorted_of(ts)),
        forall|j: int|
            0 <= j < grouped_sorted_of(ts).len() ==> (#[trigger] grouped_sorted_of(ts)[j]).1 == section_members(
                ts,
                grouped_sorted_of(ts)[j].0,
            ),
        forall|j: int|
            0 <= j < grouped_sorted_of(ts).len() ==> scores_descending(ts, (#[trigger] grouped_sorted_of(ts)[j]).1),
{
    let keys = section_keys_upto(ts, ts.len());
    let unsorted = keys.map_values(|k: Seq<char>| (k, section_members(ts, k)));
    lemma_sort_by_sum_descending(ts, unsorted);
    lemma_sort_by_sum_from(ts, unsorted);
    assert forall|j: int| 0 <= j < grouped_sorted_of(ts).len() implies (#[trigger] grouped_sorted_of(ts)[j]).1
        == section_members(ts, grouped_sorted_of(ts)[j].0) && scores_descending(ts, grouped_sorted_of(ts)[j].1) by {
        let sec = grouped_sorted_of(ts)[j];
        let w = choose|w: int| 0 <= w < unsorted.len() && unsorted[w] == sec;
        assert(sec == (keys[w], section_members(ts, keys[w])));
        section_members_descending(ts, keys[w]);
    }
}

proof fn lemma_members_exact(ts: Seq<TaskView>, key: Seq<char>, score: u8, n: nat)
    requires
        n <= ts.len() <= usize::MAX,
    ensures
        forall|i: int|
            0 <= i < n ==> (members_with_score(ts, key, score, n).contains(i as usize) <==> (group_label_of(ts[i]) == key
                && ts[i].priority.score_of() == score)),
        forall|a: int, b: int|
            0 <= a < b < members_with_score(ts, key, score, n).len() ==> #[trigger] members_with_score(ts, key, score, n)[a]
                < #[trigger] members_with_score(ts, key, score, n)[b],
        forall|a: int|
            0 <= a < members_with_score(ts, key, score, n).len() ==> #[trigger] members_with_score(ts, key, score, n)[a] < n,
    decreases n,
{
    if n > 0 {
        lemma_members_exact(ts, key, score, (n - 1) as nat);
        let prev = members_with_score(ts, key, score, (n - 1) as nat);
        let cur = members_with_score(ts, key, score, n);
        assert forall|i: int| 0 <= i < n implies (cur.contains(i as usize) <==> (group_label_of(ts[i]) == key
            && ts[i].priority.score_of() == score)) by {
            if cur.contains(i as usize) {
                let w = choose|w: int| 0 <= w < cur.len() && cur[w] == i as usize;
                if w < prev.len() {
                    assert(prev[w] == cur[w]);
                    assert(prev.contains(i as usize));
                }
            }
            if group_label_of(ts[i]) == key && ts[i].priority.score_of() == score {
                if i < n - 1 {
                    assert(prev.contains(i as usize));
                    let w = choose|w: int| 0 <= w < prev.len() && prev[w] == i as usize;
                    assert(cur[w] == i as usize);
                } else {
                    assert(cur[prev.len() as int] == i as usize);
                }
            }
        }
        assert forall|a: int, b: int| 0 <= a < b < cur.len() implies #[trigger] cur[a] < #[trigger] cur[b] by {
            assert(cur[a] == prev[a]);
            if b < prev.len() {
                assert(cur[b] == prev[b]);
            }
        }
        assert forall|a: int| 0 <= a < cur.len() implies #[trigger] cur[a] < n by {
            if a < prev.len() {
                assert(cur[a] == prev[a]);
            }
        }
    }
}

/// Joining index lists of distinct scores keeps each index once.
proof fn lemma_concat_distinct(ts: Seq<TaskView>, x: Seq<usize>, y: Seq<usize>, k: u8)
    requires
        x.no_duplicates(),
        y.no_duplicates(),
        forall|a: int| 0 <= a < x.len() ==> ts[#[trigger] x[a] as int].priority.score_of() > k,
        forall|b: int| 0 <= b < y.len() ==> ts[#[trigger] y[b] as int].priority.score_of() == k,
    ensures
        (x + y).no_duplicates(),
        forall|a: int| 0 <= a < (x + y).len() ==> ts[#[trigger] (x + y)[a] as int].priority.score_of() >= k,
{
    let z = x + y;
    assert forall|a: int, b: int| 0 <= a < z.len() && 0 <= b < z.len() && a != b implies z[a] != z[b] by {
        if a < x.len() && b < x.len() {
            assert(x[a] != x[b]);
        } else if a >= x.len() && b >= x.len() {
            assert(y[a - x.len()] != y[b - x.len()]);
        } else if a < x.len() {
            assert(z[a] == x[a] && z[b] == y[b - x.len()]);
        } else {
            assert(z[b] == x[b] && z[a] == y[a - x.len()]);
        }
    }
    assert forall|a: int| 0 <= a < z.len() implies ts[#[trigger] z[a] as int].priority.score_of() >= k by {
        if a < x.len() {
            assert(z[a] == x[a]);
        } else {
            assert(z[a] == y[a - x.len()]);
        }
    }
}

proof fn lemma_increasing_distinct(s: Seq<usize>)
    requires
        forall|a: int, b: int| 0 <= a < b < s.len() ==> #[trigger] s[a] < #[trigger] s[b],
    ensures
        s.no_duplicates(),
{
    assert forall|a: int, b: int| 0 <= a < s.len() && 0 <= b < s.len() && a != b implies s[a] != s[b] by {
        if a < b {
            assert(s[a] < s[b]);
        } else {
            assert(s[b] < s[a]);
        }
    }
}

/// A section's indices are exactly the tasks with its label, each once.
proof fn lemma_section_members_exact(ts: Seq<TaskView>, key: Seq<char>)
    requires
        ts.len() <= usize::MAX,
    ensures
        section_members(ts, key).no_duplicates(),
        forall|i: int| 0 <= i < ts.len() ==> (section_members(ts, key).contains(i as usize) <==> group_label_of(ts[i]) == key),
        forall|t: int| 0 <= t < section_members(ts, key).len() ==> #[trigger] section_members(ts, key)[t] < ts.len(),
{
    let n = ts.len();
    lemma_members_exact(ts, key, 4, n);
    lemma_members_exact(ts, key, 3, n);
    lemma_members_exact(ts, key, 2, n);
    lemma_members_exact(ts, key, 1, n);
    lemma_members_exact(ts, key, 0, n);
    lemma_members_props(ts, key, 4, n);
    lemma_members_props(ts, key, 3, n);
    lemma_members_props(ts, key, 2, n);
    lemma_members_props(ts, key, 1, n);
    lemma_members_props(ts, key, 0, n);
    let m4 = members_with_score(ts, key, 4, n);
    let m3 = members_with_score(ts, key, 3, n);
    let m2 = members_with_score(ts, key, 2, n);
    let m1 = members_with_score(ts, key, 1, n);
    let m0 = members_with_score(ts, key, 0, n);
    lemma_increasing_distinct(m4);
    lemma_increasing_distinct(m3);
    lemma_increasing_distinct(m2);
    lemma_increasing_distinct(m1);
    lemma_increasing_distinct(m0);
    lemma_concat_distinct(ts, m4, m3, 3);
    lemma_concat_distinct(ts, m4 + m3, m2, 2);
    lemma_concat_distinct(ts, m4 + m3 + m2, m1, 1);
    lemma_concat_distinct(ts, m4 + m3 + m2 + m1, m0, 0);
    let all = section_members(ts, key);
    assert(all == m4 + m3 + m2 + m1 + m0);
    assert forall|i: int| 0 <= i < ts.len() implies (all.contains(i as usize) <==> group_label_of(ts[i]) == key) by {
        let sc = ts[i].priority.score_of();
        if group_label_of(ts[i]) == key {
            let m = members_with_score(ts, key, sc, n);
            assert(m.contains(i as usize));
            let w = choose|w: int| 0 <= w < m.len() && m[w] == i as usize;
            if sc == 4 {
                assert(all[w] == i as usize);
            } else if sc == 3 {
                assert(all[m4.len() + w] == i as usize);
            } else if sc == 2 {
                assert(all[m4.len() + m3.len() + w] == i as usize);
            } else if sc == 1 {
                assert(all[m4.len() + m3.len() + m2.len() + w] == i as usize);
            } else {
                assert(all[m4.len() + m3.len() + m2.len() + m1.len() + w] == i as usize);
            }
        }
        if all.contains(i as usize) {
            let w = choose|w: int| 0 <= w < all.len() && all[w] == i as usize;
            if w < m4.len() {
                assert(m4[w] == i as usize);
            } else if w < m4.len() + m3.len() {
                assert(m3[w - m4.len()] == i as usize);
            } else if w < m4.len() + m3.len() + m2.len() {
                assert(m2[w - m4.len() - m3.len()] == i as usize);
            } else if w < m4.len() + m3.len() + m2.len() + m1.len() {
                assert(m1[w - m4.len() - m3.len() - m2.len()] == i as usize);
            } else {
                assert(m0[w - m4.len() - m3.len() - m2.len() - m1.len()] == i as usize);
            }
        }
    }
    lemma_grouped_members_in_range(ts, key);
}

proof fn lemma_grouped_members_in_range(ts: Seq<TaskView>, key: Seq<char>)
    requires
        ts.len() <= usize::MAX,
    ensures
        forall|t: int| 0 <= t < section_members(ts, key).len() ==> #[trigger] section_members(ts, key)[t] < ts.len(),
{
    let n = ts.len();
    lemma_members_in_range(ts, key, 4, n);
    lemma_members_in_range(ts, key, 3, n);
    lemma_members_in_range(ts, key, 2, n);
    lemma_members_in_range(ts, key, 1, n);
    lemma_members_in_range(ts, key, 0, n);
    let m4 = members_with_score(ts, key, 4, n);
    let m3 = members_with_score(ts, key, 3, n);
    let m2 = members_with_score(ts, key, 2, n);
    let m1 = members_with_score(ts, key, 1, n);
    let m0 = members_with_score(ts, key, 0, n);
    let all = section_members(ts, key);
    assert forall|t: int| 0 <= t < all.len() implies #[trigger] all[t] < n by {
        if t < m4.len() {
            assert(all[t] == m4[t]);
        } else if t < m4.len() + m3.len() {
            assert(all[t] == m3[t - m4.len()]);
        } else if t < m4.len() + m3.len() + m2.len() {
            assert(all[t] == m2[t - m4.len() - m3.len()]);
        } else if t < m4.len() + m3.len() + m2.len() + m1.len() {
            assert(all[t] == m1[t - m4.len() - m3.len() - m2.len()]);
        } else {
            assert(all[t] == m0[t - m4.len() - m3.len() - m2.len() - m1.len()]);
        }
    }
}

proof fn lemma_section_keys(ts: Seq<TaskView>, n: nat)
    requires
        n <= ts.len(),
    ensures
        section_keys_upto(ts, n).no_duplicates(),
        forall|i: int| 0 <= i < n ==> section_keys_upto(ts, n).contains(#[trigger] group_label_of(ts[i])),
    decreases n,
{
    if n > 0 {
        lemma_section_keys(ts, (n - 1) as nat);
        let prev = section_keys_upto(ts, (n - 1) as nat);
        let key = group_label_of(ts[n - 1]);
        let cur = section_keys_upto(ts, n);
        if !prev.contains(key) {
            assert forall|a: int, b: int| 0 <= a < cur.len() && 0 <= b < cur.len() && a != b implies cur[a] != cur[b] by {
                if a < prev.len() && b < prev.len() {
                    assert(prev[a] != prev[b]);
                } else if a < prev.len() {
                    assert(prev.contains(cur[a]));
                } else {
                    assert(prev.contains(cur[b]));
                }
            }
        }
        assert forall|i: int| 0 <= i < n implies cur.contains(#[trigger] group_label_of(ts[i])) by {
            if i < n - 1 {
                let l = group_label_of(ts[i]);
                assert(prev.contains(l));
                let w = choose|w: int| 0 <= w < prev.len() && prev[w] == l;
                assert(cur[w] == l);
            } else if !prev.contains(key) {
                assert(cur[prev.len() as int] == key);
            }
        }
    }
}

proof fn lemma_insert_by_sum_keeps(ts: Seq<TaskView>, sorted: Seq<SectionView>, x: SectionView)
    requires
        sorted.no_duplicates(),
        !sorted.contains(x),
    ensures
        insert_by_sum(ts, sorted, x).no_duplicates(),
        insert_by_sum(ts, sorted, x).contains(x),
        forall|e: SectionView| sorted.contains(e) ==> #[trigger] insert_by_sum(ts, sorted, x).contains(e),
    decreases sorted.len(),
{
    lemma_insert_by_sum_from(ts, sorted, x);
    let r = insert_by_sum(ts, sorted, x);
    if sorted.len() == 0 {
        assert(r[0] == x);
    } else if index_score_sum(ts, sorted.last().1) >= index_score_sum(ts, x.1) {
        assert(r == sorted.push(x));
        assert(r[sorted.len() as int] == x);
        assert forall|a: int, b: int| 0 <= a < r.len() && 0 <= b < r.len() && a != b implies r[a] != r[b] by {
            if a < sorted.len() && b < sorted.len() {
                assert(sorted[a] != sorted[b]);
            } else if a < sorted.len() {
                assert(sorted.contains(r[a]));
            } else {
                assert(sorted.contains(r[b]));
            }
        }
        assert forall|e: SectionView| sorted.contains(e) implies #[trigger] r.contains(e) by {
            let w = choose|w: int| 0 <= w < sorted.len() && sorted[w] == e;
            assert(r[w] == e);
        }
    } else {
        let d = sorted.drop_last();
        let last = sorted.last();
        assert(d.no_duplicates()) by {
            assert forall|a: int, b: int| 0 <= a < d.len() && 0 <= b < d.len() && a != b implies d[a] != d[b] by {
                assert(sorted[a] != sorted[b]);
            }
        }
        assert(!d.contains(x)) by {
            if d.contains(x) {
                let w = choose|w: int| 0 <= w < d.len() && d[w] == x;
                assert(sorted[w] == x);
            }
        }
        lemma_insert_by_sum_keeps(ts, d, x);
        lemma_insert_by_sum_from(ts, d, x);
        let r0 = insert_by_sum(ts, d, x);
        assert(r == r0.push(last));
        assert(!r0.contains(last)) by {
            if r0.contains(last) {
                let w = choose|w: int| 0 <= w < r0.len() && r0[w] == last;
                if r0[w] == x {
                    assert(sorted[sorted.len() - 1] == x);
                } else {
                    let v = choose|v: int| 0 <= v < d.len() && d[v] == r0[w];
                    assert(sorted[v] == sorted[sorted.len() - 1]);
                }
            }
        }
        assert forall|a: int, b: int| 0 <= a < r.len() && 0 <= b < r.len() && a != b implies r[a] != r[b] by {
            if a < r0.len() && b < r0.len() {
                assert(r0[a] != r0[b]);
            } else if a < r0.len() {
                assert(r0.contains(r[a]));
            } else {
                assert(r0.contains(r[b]));
            }
        }
        assert(r.contains(x)) by {
            let w = choose|w: int| 0 <= w < r0.len() && r0[w] == x;
            assert(r[w] == x);
        }
        assert forall|e: SectionView| sorted.contains(e) implies #[trigger] r.contains(e) by {
            if e == last {
                assert(r[r0.len() as int] == e);
            } else {
                let w = choose|w: int| 0 <= w < sorted.len() && sorted[w] == e;
                assert(d[w] == e);
                assert(d.contains(e));
                assert(r0.contains(e));
                let v = choose|v: int| 0 <= v < r0.len() && r0[v] == e;
                assert(r[v] == e);
            }
        }
    }
}

proof fn lemma_sort_by_sum_keeps(ts: Seq<TaskView>, s: Seq<SectionView>)
    requires
        s.no_duplicates(),
    ensures
        sort_by_sum(ts, s).no_duplicates(),
        forall|e: SectionView| s.contains(e) ==> #[trigger] sort_by_sum(ts, s).contains(e),
    decreases s.len(),
{
    if s.len() > 0 {
        let d = s.drop_last();
        assert(d.no_duplicates()) by {
            assert forall|a: int, b: int| 0 <= a < d.len() && 0 <= b < d.len() && a != b implies d[a] != d[b] by {
                assert(s[a] != s[b]);
            }
        }
        lemma_sort_by_sum_keeps(ts, d);
        lemma_sort_by_sum_from(ts, d);
        let prev = sort_by_sum(ts, d);
        assert(!prev.contains(s.last())) by {
            if prev.contains(s.last()) {
                let w = choose|w: int| 0 <= w < prev.len() && prev[w] == s.last();
                assert(d.contains(prev[w]));
                let v = choose|v: int| 0 <= v < d.len() && d[v] == s.last();
                assert(s[v] == s[s.len() - 1]);
            }
        }
        lemma_insert_by_sum_keeps(ts, prev, s.last());
        assert forall|e: SectionView| s.contains(e) implies #[trigger] sort_by_sum(ts, s).contains(e) by {
            if e != s.last() {
                let w = choose|w: int| 0 <= w < s.len() && s[w] == e;
                assert(d[w] == e);
                assert(d.contains(e));
            }
        }
    }
}

/// The sections partition the tasks: every task is in exactly one section,
/// the one with its label, and appears there once.
pub proof fn grouped_sorted_partitions_tasks(ts: Seq<TaskView>)
    requires
        ts.len() <= usize::MAX,
    ensures
        forall|i: int|
            #![trigger ts[i]]
            0 <= i < ts.len() ==> exists|j: int|
                0 <= j < grouped_sorted_of(ts).len() && (#[trigger] grouped_sorted_of(ts)[j]).0 == group_label_of(ts[i])
                    && grouped_sorted_of(ts)[j].1.contains(i as usize),
        forall|i: usize, j1: int, j2: int|
            #![trigger grouped_sorted_of(ts)[j1].1.contains(i), grouped_sorted_of(ts)[j2].1.contains(i)]
            0 <= j1 < grouped_sorted_of(ts).len() && 0 <= j2 < grouped_sorted_of(ts).len()
                && grouped_sorted_of(ts)[j1].1.contains(i) && grouped_sorted_of(ts)[j2].1.contains(i) ==> j1 == j2,
        forall|j: int| 0 <= j < grouped_sorted_of(ts).len() ==> (#[trigger] grouped_sorted_of(ts)[j]).1.no_duplicates(),
{
    let keys = section_keys_upto(ts, ts.len());
    let unsorted = keys.map_values(|k: Seq<char>| (k, section_members(ts, k)));
    let secs = grouped_sorted_of(ts);
    lemma_section_keys(ts, ts.len());
    assert(unsorted.no_duplicates()) by {
        assert forall|a: int, b: int| 0 <= a < unsorted.len() && 0 <= b < unsorted.len() && a != b implies unsorted[a]
            != unsorted[b] by {
            assert(keys[a] != keys[b]);
        }
    }
    lemma_sort_by_sum_keeps(ts, unsorted);
    lemma_sort_by_sum_from(ts, unsorted);
    assert forall|j: int| 0 <= j < secs.len() implies #[trigger] secs[j] == (secs[j].0, section_members(ts, secs[j].0)) by {
        let w = choose|w: int| 0 <= w < unsorted.len() && unsorted[w] == secs[j];
    }
    assert forall|i: int|
        #![trigger ts[i]]
        0 <= i < ts.len() implies exists|j: int|
        0 <= j < secs.len() && (#[trigger] secs[j]).0 == group_label_of(ts[i]) && secs[j].1.contains(i as usize) by {
        let l = group_label_of(ts[i]);
        assert(keys.contains(l));
        let w = choose|w: int| 0 <= w < keys.len() && keys[w] == l;
        assert(unsorted[w] == (l, section_members(ts, l)));
        assert(unsorted.contains((l, section_members(ts, l))));
        assert(secs.contains((l, section_members(ts, l))));
        let j = choose|j: int| 0 <= j < secs.len() && secs[j] == (l, section_members(ts, l));
        lemma_section_members_exact(ts, l);
        assert(secs[j].1.contains(i as usize));
    }
    assert forall|i: usize, j1: int, j2: int|
        #![trigger secs[j1].1.contains(i), secs[j2].1.contains(i)]
        0 <= j1 < secs.len() && 0 <= j2 < secs.len() && secs[j1].1.contains(i) && secs[j2].1.contains(i)
        implies j1 == j2 by {
        let k1 = secs[j1].0;
        let k2 = secs[j2].0;
        lemma_section_members_exact(ts, k1);
        lemma_section_members_exact(ts, k2);
        let w = choose|w: int| 0 <= w < secs[j1].1.len() && secs[j1].1[w] == i;
        assert(i < ts.len());
        assert(group_label_of(ts[i as int]) == k1);
        assert(group_label_of(ts[i as int]) == k2);
        assert(secs[j1] == secs[j2]);
    }
    assert forall|j: int| 0 <= j < secs.len() implies (#[trigger] secs[j]).1.no_duplicates() by {
        lemma_section_members_exact(ts, secs[j].0);
    }
}

/// The Mermaid-safe form of a character: `:`, `,` and line breaks become
/// spaces.
pub open spec fn mermaid_char(c: char) -> Seq<char> {
    if c == ':' || c == ',' || c == '\n' || c == '\r' {
        seq![' ']
    } else {
        seq![c]
    }
}

pub open spec fn sanitize_mermaid_of(s: Seq<char>) -> Seq<char> {
    map_chars(s, |c: char| mermaid_char(c))
}

/// Sanitized text keeps its length and holds none of the characters that
/// end a Mermaid task name.
pub proof fn sanitize_mermaid_is_safe(s: Seq<char>)
    ensures
        sanitize_mermaid_of(s).len() == s.len(),
        !sanitize_mermaid_of(s).contains(':'),
        !sanitize_mermaid_of(s).contains(','),
        !sanitize_mermaid_of(s).contains('\n'),
        !sanitize_mermaid_of(s).contains('\r'),
{
    let f = |c: char| mermaid_char(c);
    assert forall|x: char| (#[trigger] f(x)).len() == 1 by {}
    lemma_map_chars_len(s, f);
    assert forall|x: char| !(#[trigger] f(x)).contains(':') by {
        if f(x).contains(':') {
            assert(f(x)[0] == ':');
        }
    }
    assert forall|x: char| !(#[trigger] f(x)).contains(',') by {
        if f(x).contains(',') {
            assert(f(x)[0] == ',');
        }
    }
    assert forall|x: char| !(#[trigger] f(x)).contains('\n') by {
        if f(x).contains('\n') {
            assert(f(x)[0] == '\n');
        }
    }
    assert forall|x: char| !(#[trigger] f(x)).contains('\r') by {
        if f(x).contains('\r') {
            assert(f(x)[0] == '\r');
        }
    }
    lemma_map_chars_avoids(s, f, ':');
    lemma_map_chars_avoids(s, f, ',');
    lemma_map_chars_avoids(s, f, '\n');
    lemma_map_chars_avoids(s, f, '\r');
}

/// The text with `:`, `,`, `\n` and `\r` replaced by spaces.
pub fn sanitize_mermaid(s: &str) -> (out: String)
    ensures
        out@ == sanitize_mermaid_of(s@),
{
    let cs = chars_of(s);
    let mut out = String::new();
    let mut i: usize = 0;
    while i < cs.len()
        invariant
            i <= cs@.len(),
            cs@ == s@,
            out@ == map_chars(cs@.take(i as int), |c: char| mermaid_char(c)),
        decreases cs@.len() - i,
    {
        proof {
            lemma_map_chars_step(cs@, |c: char| mermaid_char(c), i as int);
        }
        let c = cs[i];
        if c == ':' || c == ',' || c == '\n' || c == '\r' {
            push_char(&mut out, ' ');
        } else {
            push_char(&mut out, c);
        }
        i = i + 1;
    }
    assert(cs@.take(cs@.len() as int) =~= cs@);
    out
}

/// The table-safe form of a character: `|` escaped with a backslash, a line
/// break as a space.
pub open spec fn table_char(c: char) -> Seq<char> {
    if c == '|' {
        seq!['\\', '|']
    } else if c == '\n' {
        seq![' ']
    } else {
        seq![c]
    }
}

pub open spec fn escape_table_of(s: Seq<char>) -> Seq<char> {
    map_chars(s, |c: char| table_char(c))
}

/// Escaped text cannot end a table cell or row: it holds no line break,
/// and each `|` in it follows a backslash.
pub proof fn escape_table_is_safe(s: Seq<char>)
    ensures
        !escape_table_of(s).contains('\n'),
        forall|k: int|
            0 <= k < escape_table_of(s).len() && #[trigger] escape_table_of(s)[k] == '|' ==> k > 0 && escape_table_of(s)[k - 1]
                == '\\',
    decreases s.len(),
{
    let f = |c: char| table_char(c);
    assert forall|x: char| !(#[trigger] f(x)).contains('\n') by {
        if f(x).contains('\n') {
            if x == '|' {
                assert(f(x)[0] != '\n' && f(x)[1] != '\n');
            } else {
                assert(f(x)[0] == '\n');
            }
        }
    }
    lemma_map_chars_avoids(s, f, '\n');
    if s.len() > 0 {
        escape_table_is_safe(s.drop_last());
        let a = escape_table_of(s.drop_last());
        let b = table_char(s.last());
        let out = escape_table_of(s);
        assert(out == a + b);
        assert forall|k: int| 0 <= k < out.len() && #[trigger] out[k] == '|' implies k > 0 && out[k - 1] == '\\' by {
            if k < a.len() {
                assert(out[k] == a[k]);
                assert(a[k] == '|');
                assert(out[k - 1] == a[k - 1]);
            } else if s.last() == '|' {
                if k == a.len() {
                    assert(out[k] == b[0]);
                } else {
                    assert(k == a.len() + 1);
                    assert(out[k - 1] == b[0]);
                }
            } else {
                assert(out[k] == b[0]);
            }
        }
    }
}

/// The text with `|` escaped and line breaks replaced by spaces.
pub fn escape_table(s: &str) -> (out: String)
    ensures
        out@ == escape_table_of(s@),
{
    let cs = chars_of(s);
    let mut out = String::new();
    let mut i: usize = 0;
    while i < cs.len()
        invariant
            i <= cs@.len(),
            cs@ == s@,
            out@ == map_chars(cs@.take(i as int), |c: char| table_char(c)),
        decreases cs@.len() - i,
    {
        proof {
            lemma_map_chars_step(cs@, |c: char| table_char(c), i as int);
        }
        let c = cs[i];
        if c == '|' {
            push_char(&mut out, '\\');
            push_char(&mut out, '|');
        } else if c == '\n' {
            push_char(&mut out, ' ');
        } else {
            push_char(&mut out, c);
        }
        i = i + 1;
    }
    assert(cs@.take(cs@.len() as int) =~= cs@);
    out
}


/// One action in the reference table.
pub open spec fn action_cell_of(labels: Seq<(Days, Seq<char>)>, a: ScheduledActionView) -> Seq<char> {
    (if a.completed { "[x]"@ } else { "[ ]"@ }) + " "@ + escape_table_of(a.content) + " ("@ + day_label(labels, a.days)
        + "d, "@ + a.category + ")"@
}

/// The action-points cell of a question: a dash without actions, else the
/// actions joined by line breaks.
pub open spec fn actions_cell_of(labels: Seq<(Days, Seq<char>)>, actions: Seq<ScheduledActionView>) -> Seq<char> {
    if actions.len() == 0 {
        "\u{2014}"@
    } else {
        join_with(actions.map_values(|a: ScheduledActionView| action_cell_of(labels, a)), "<br>"@)
    }
}

/// One question's row in the reference table; an answered question is
/// struck through.
pub open spec fn table_row_of(labels: Seq<(Days, Seq<char>)>, q: ScheduledQuestionView) -> Seq<char> {
    let qtext = if q.answered {
        "~~"@ + escape_table_of(q.content) + "~~"@
    } else {
        escape_table_of(q.content)
    };
    "| Q"@ + decimal(q.id as nat) + " | "@ + qtext + " | "@ + q.priority.label_of() + " | "@ + day_label(labels, q.days)
        + " | "@ + (if q.answered { "done"@ } else { "open"@ }) + " | "@ + actions_cell_of(labels, q.actions) + " |\n"@
}

pub open spec fn table_header_lines() -> Seq<char> {
    "| ID | Question | Priority | Days | Status | Action points |\n"@ + "|----|----------|----------|------|--------|---------------|\n"@
}

/// One objective's table: a heading (struck through and marked for a met
/// objective), the header and a row per question.
pub open spec fn table_section_of(labels: Seq<(Days, Seq<char>)>, sched: ScheduleView) -> Seq<char> {
    (if sched.met {
        "### ~~"@ + escape_table_of(sched.objective) + "~~ (met)\n\n"@
    } else {
        "### "@ + escape_table_of(sched.objective) + "\n\n"@
    }) + table_header_lines() + concat_all(
        sched.questions.map_values(|q: ScheduledQuestionView| table_row_of(labels, q)),
    )
}

/// The tables of the first `n` schedules that have questions.
pub open spec fn table_parts(labels: Seq<(Days, Seq<char>)>, scheds: Seq<ScheduleView>, n: nat) -> Seq<Seq<char>>
    decreases n,
{
    if n == 0 {
        Seq::empty()
    } else {
        let prev = table_parts(labels, scheds, (n - 1) as nat);
        if scheds[n - 1].questions.len() == 0 {
            prev
        } else {
            prev.push(table_section_of(labels, scheds[n - 1]))
        }
    }
}

/// The reference tables, separated by blank lines.
pub open spec fn table_body_of(labels: Seq<(Days, Seq<char>)>, scheds: Seq<ScheduleView>) -> Seq<char> {
    join_with(table_parts(labels, scheds, scheds.len()), "\n"@)
}

fn push_action_cell(out: &mut String, labels: &Vec<DayText>, a: &crate::writer::ScheduledAction)
    ensures
        final(out)@ == old(out)@ + action_cell_of(day_text_views(labels@), a@),
{
    if a.completed {
        push_str(out, "[x]");
    } else {
        push_str(out, "[ ]");
    }
    push_str(out, " ");
    let c = escape_table(a.content.as_str());
    push_str(out, c.as_str());
    push_str(out, " (");
    push_str(out, day_text(labels, a.days));
    push_str(out, "d, ");
    push_str(out, a.category.as_str());
    push_str(out, ")");
    assert(final(out)@ =~= old(out)@ + action_cell_of(day_text_views(labels@), a@));
}

proof fn lemma_join_step(parts: Seq<Seq<char>>, sep: Seq<char>, j: int)
    requires
        0 < j < parts.len(),
    ensures
        join_with(parts.take(j + 1), sep) == join_with(parts.take(j), sep) + sep + parts[j],
{
    assert(parts.take(j + 1).drop_last() =~= parts.take(j));
}

/// One question's row of the reference table.
pub fn format_table_row(q: &ScheduledQuestion, labels: &Vec<DayText>) -> (row: String)
    ensures
        row@ == table_row_of(day_text_views(labels@), q@),
{
    let ghost lv = day_text_views(labels@);
    let mut out = String::from_str("| Q");
    push_decimal(&mut out, q.id);
    push_str(&mut out, " | ");
    let c = escape_table(q.content.as_str());
    if q.answered {
        push_str(&mut out, "~~");
        push_str(&mut out, c.as_str());
        push_str(&mut out, "~~");
    } else {
        push_str(&mut out, c.as_str());
    }
    push_str(&mut out, " | ");
    push_str(&mut out, q.priority.label());
    push_str(&mut out, " | ");
    push_str(&mut out, day_text(labels, q.days));
    push_str(&mut out, " | ");
    if q.answered {
        push_str(&mut out, "done");
    } else {
        push_str(&mut out, "open");
    }
    push_str(&mut out, " | ");
    let ghost before_actions = out@;
    let ghost av = q@.actions;
    let ghost parts = av.map_values(|a: ScheduledActionView| action_cell_of(lv, a));
    if q.actions.len() == 0 {
        push_str(&mut out, "\u{2014}");
    } else {
        let mut j: usize = 0;
        while j < q.actions.len()
            invariant
                0 <= j <= q.actions@.len(),
                av == sched_action_views(q.actions@),
                lv == day_text_views(labels@),
                parts == av.map_values(|a: ScheduledActionView| action_cell_of(lv, a)),
                q.actions@.len() > 0,
                j == 0 ==> out@ == before_actions,
                j > 0 ==> out@ == before_actions + join_with(parts.take(j as int), "<br>"@),
            decreases q.actions@.len() - j,
        {
            assert(av[j as int] == q.actions@[j as int]@);
            if j > 0 {
                push_str(&mut out, "<br>");
                proof {
                    lemma_join_step(parts, "<br>"@, j as int);
                }
            } else {
                assert(parts.take(1) =~= seq![parts[0]]);
            }
            push_action_cell(&mut out, labels, &q.actions[j]);
            j = j + 1;
        }
        assert(parts.take(parts.len() as int) =~= parts);
    }
    push_str(&mut out, " |\n");
    assert(out@ =~= table_row_of(lv, q@));
    out
}

fn push_table_section(out: &mut String, labels: &Vec<DayText>, sched: &ObjectiveSchedule)
    ensures
        final(out)@ == old(out)@ + table_section_of(day_text_views(labels@), sched@),
{
    let ghost lv = day_text_views(labels@);
    let obj = escape_table(sched.objective.as_str());
    if sched.met {
        push_str(out, "### ~~");
        push_str(out, obj.as_str());
        push_str(out, "~~ (met)\n\n");
    } else {
        push_str(out, "### ");
        push_str(out, obj.as_str());
        push_str(out, "\n\n");
    }
    push_str(out, "| ID | Question | Priority | Days | Status | Action points |\n");
    push_str(out, "|----|----------|----------|------|--------|---------------|\n");
    let ghost start = out@;
    let ghost qv = sched@.questions;
    let ghost parts = qv.map_values(|q: ScheduledQuestionView| table_row_of(lv, q));
    assert(parts.take(0) =~= Seq::<Seq<char>>::empty());
    let mut k: usize = 0;
    while k < sched.questions.len()
        invariant
            k <= sched.questions@.len(),
            qv == sched_question_views(sched.questions@),
            lv == day_text_views(labels@),
            parts == qv.map_values(|q: ScheduledQuestionView| table_row_of(lv, q)),
            out@ == start + concat_all(parts.take(k as int)),
        decreases sched.questions@.len() - k,
    {
        proof {
            lemma_concat_all_step(parts, k as int);
        }
        assert(qv[k as int] == sched.questions@[k as int]@);
        let row = format_table_row(&sched.questions[k], labels);
        push_str(out, row.as_str());
        k = k + 1;
    }
    proof {
        lemma_concat_all_full(parts);
    }
    assert(out@ =~= old(out)@ + table_section_of(lv, sched@));
}

pub open spec fn schedule_views(s: Seq<ObjectiveSchedule>) -> Seq<ScheduleView> {
    s.map_values(|o: ObjectiveSchedule| o@)
}

/// The reference tables of the objectives that have questions.
pub fn render_table_body(schedule: &Vec<ObjectiveSchedule>, labels: &Vec<DayText>) -> (s: String)
    ensures
        s@ == table_body_of(day_text_views(labels@), schedule_views(schedule@)),
{
    let ghost lv = day_text_views(labels@);
    let ghost sv = schedule_views(schedule@);
    let mut out = String::new();
    let mut first = true;
    let mut i: usize = 0;
    while i < schedule.len()
        invariant
            i <= schedule@.len(),
            sv == schedule_views(schedule@),
            lv == day_text_views(labels@),
            first == (table_parts(lv, sv, i as nat).len() == 0),
            out@ == join_with(table_parts(lv, sv, i as nat), "\n"@),
        decreases schedule@.len() - i,
    {
        assert(sv[i as int] == schedule@[i as int]@);
        let ghost prev = table_parts(lv, sv, i as nat);
        if schedule[i].questions.len() != 0 {
            if !first {
                push_str(&mut out, "\n");
            }
            let ghost before = out@;
            push_table_section(&mut out, labels, &schedule[i]);
            proof {
                let next = prev.push(table_section_of(lv, sv[i as int]));
                assert(table_parts(lv, sv, (i + 1) as nat) == next);
                assert(next.drop_last() =~= prev);
                if prev.len() == 0 {
                    assert(join_with(next, "\n"@) == next[0]);
                    assert(out@ =~= join_with(next, "\n"@));
                } else {
                    assert(out@ =~= join_with(next, "\n"@));
                }
            }
            first = false;
        }
        i = i + 1;
    }
    out
}


/// The chart tags of a question: `crit` for a critical one, `done` for an
/// answered one, each followed by a comma and a space.
pub open spec fn tag_prefix_of(q: ScheduledQuestionView) -> Seq<char> {
    let crit = q.priority == Priority::Critical;
    if crit && q.answered {
        "crit, done, "@
    } else if crit {
        "crit, "@
    } else if q.answered {
        "done, "@
    } else {
        Seq::empty()
    }
}

/// The position of the last of the first `k` questions with id `id`.
pub open spec fn last_index_with_id(qs: Seq<ScheduledQuestionView>, id: usize, k: nat) -> Option<nat>
    decreases k,
{
    if k == 0 {
        None
    } else if qs[k - 1].id == id {
        Some((k - 1) as nat)
    } else {
        last_index_with_id(qs, id, (k - 1) as nat)
    }
}

proof fn lemma_last_index_bound(qs: Seq<ScheduledQuestionView>, id: usize, k: nat)
    ensures
        last_index_with_id(qs, id, k) matches Some(j) ==> j < k,
    decreases k,
{
    if k > 0 {
        lemma_last_index_bound(qs, id, (k - 1) as nat);
    }
}

/// Where the bar of question `k` starts: after the bar of its prerequisite
/// when that question was charted earlier in the section, else after the
/// previous bar, else on the base date.  Bars are numbered from `base`.
pub open spec fn chart_start_of(qs: Seq<ScheduledQuestionView>, k: int, base: nat) -> Seq<char> {
    let default = if k > 0 {
        "after t"@ + decimal((base + k - 1) as nat)
    } else {
        "2025-01-01"@
    };
    match qs[k].prereq {
        Some(pid) => match last_index_with_id(qs, pid, k as nat) {
            Some(j) => "after t"@ + decimal(base + j),
            None => default,
        },
        None => default,
    }
}

proof fn lemma_last_index_found(qs: Seq<ScheduledQuestionView>, id: usize, k: nat, j: int)
    requires
        0 <= j < k,
        qs[j].id == id,
        forall|m: int| j < m < k ==> #[trigger] qs[m].id != id,
    ensures
        last_index_with_id(qs, id, k) == Some(j as nat),
    decreases k,
{
    if k - 1 != j {
        lemma_last_index_found(qs, id, (k - 1) as nat, j);
    }
}

proof fn lemma_last_index_absent(qs: Seq<ScheduledQuestionView>, id: usize, k: nat)
    requires
        forall|m: int| 0 <= m < k ==> #[trigger] qs[m].id != id,
    ensures
        last_index_with_id(qs, id, k) is None,
    decreases k,
{
    if k > 0 {
        lemma_last_index_absent(qs, id, (k - 1) as nat);
    }
}

/// A charted question whose prerequisite names a question charted earlier
/// in its section starts right after that question's bar (the latest one
/// with that id, were ids repeated), whatever lies between them.
pub proof fn chart_bar_starts_after_prereq(qs: Seq<ScheduledQuestionView>, k: int, base: nat, j: int)
    requires
        0 <= j < k < qs.len(),
        qs[k].prereq == Some(qs[j].id),
        forall|m: int| j < m < k ==> #[trigger] qs[m].id != qs[j].id,
    ensures
        chart_start_of(qs, k, base) == "after t"@ + decimal((base + j) as nat),
{
    lemma_last_index_found(qs, qs[j].id, k as nat, j);
}

/// A charted question with no prerequisite, or whose prerequisite names no
/// question charted before it in its section, starts after the previous
/// bar, or on the base date when it is the section's first.
pub proof fn chart_bar_starts_after_previous(qs: Seq<ScheduledQuestionView>, k: int, base: nat)
    requires
        0 <= k < qs.len(),
        qs[k].prereq matches Some(pid) ==> forall|m: int| 0 <= m < k ==> #[trigger] qs[m].id != pid,
    ensures
        k == 0 ==> chart_start_of(qs, k, base) == "2025-01-01"@,
        k > 0 ==> chart_start_of(qs, k, base) == "after t"@ + decimal((base + k - 1) as nat),
{
    if let Some(pid) = qs[k].prereq {
        lemma_last_index_absent(qs, pid, k as nat);
    }
}

/// The chart line of question `k`.
pub open spec fn chart_line_of(labels: Seq<(Days, Seq<char>)>, qs: Seq<ScheduledQuestionView>, k: int, base: nat) -> Seq<char> {
    "    [Q"@ + decimal(qs[k].id as nat) + "] "@ + sanitize_mermaid_of(qs[k].content) + " :"@ + tag_prefix_of(qs[k]) + "t"@
        + decimal((base + k) as nat) + ", "@ + chart_start_of(qs, k, base) + ", "@ + day_label(labels, qs[k].days.clamp_of())
        + "d\n"@
}

/// One objective's section of the chart, its bars numbered from `base`.
pub open spec fn chart_section_of(labels: Seq<(Days, Seq<char>)>, sched: ScheduleView, base: nat) -> Seq<char> {
    "    section "@ + sanitize_mermaid_of(sched.objective) + "\n"@ + concat_all(
        Seq::new(sched.questions.len(), |k: int| chart_line_of(labels, sched.questions, k, base)),
    )
}

/// The number of questions in the first `n` schedules.
pub open spec fn question_total(scheds: Seq<ScheduleView>, n: nat) -> nat
    decreases n,
{
    if n == 0 {
        0
    } else {
        question_total(scheds, (n - 1) as nat) + scheds[n - 1].questions.len()
    }
}

/// The chart sections of the first `n` schedules that have questions.
pub open spec fn chart_body_upto(labels: Seq<(Days, Seq<char>)>, scheds: Seq<ScheduleView>, n: nat) -> Seq<char>
    decreases n,
{
    if n == 0 {
        Seq::empty()
    } else {
        chart_body_upto(labels, scheds, (n - 1) as nat) + if scheds[n - 1].questions.len() == 0 {
            Seq::empty()
        } else {
            chart_section_of(labels, scheds[n - 1], question_total(scheds, (n - 1) as nat))
        }
    }
}

pub open spec fn chart_body_of(labels: Seq<(Days, Seq<char>)>, scheds: Seq<ScheduleView>) -> Seq<char> {
    chart_body_upto(labels, scheds, scheds.len())
}

fn last_with_id(qs: &Vec<ScheduledQuestion>, id: usize, k: usize) -> (r: Option<usize>)
    requires
        k <= qs@.len(),
    ensures
        match last_index_with_id(sched_question_views(qs@), id, k as nat) {
            Some(j) => r == Some(j as usize),
            None => r is None,
        },
        r matches Some(j) ==> j < k,
{
    let ghost qv = sched_question_views(qs@);
    let mut j = k;
    while j > 0
        invariant
            j <= k <= qs@.len(),
            qv == sched_question_views(qs@),
            last_index_with_id(qv, id, k as nat) == last_index_with_id(qv, id, j as nat),
        decreases j,
    {
        assert(qv[j - 1] == qs@[j - 1]@);
        if qs[j - 1].id == id {
            return Some(j - 1);
        }
        j = j - 1;
    }
    None
}

fn push_chart_start(out: &mut String, qs: &Vec<ScheduledQuestion>, k: usize, base: usize)
    requires
        k < qs@.len(),
        base + k <= usize::MAX,
    ensures
        final(out)@ == old(out)@ + chart_start_of(sched_question_views(qs@), k as int, base as nat),
{
    let ghost qv = sched_question_views(qs@);
    assert(qv[k as int] == qs@[k as int]@);
    let after = match qs[k].prereq {
        Some(pid) => last_with_id(qs, pid, k),
        None => None,
    };
    let ghost default = if k > 0 {
        "after t"@ + decimal((base + k - 1) as nat)
    } else {
        "2025-01-01"@
    };
    proof {
        match qs@[k as int].prereq {
            Some(pid) => {
                assert(qv[k as int].prereq == Some(pid));
                lemma_last_index_bound(qv, pid, k as nat);
                match last_index_with_id(qv, pid, k as nat) {
                    Some(j) => {
                        assert(after == Some(j as usize));
                        assert(chart_start_of(qv, k as int, base as nat) == "after t"@ + decimal(base as nat + j));
                    },
                    None => {
                        assert(after is None);
                    },
                }
            },
            None => {
                assert(after is None);
            },
        }
    }
    assert(chart_start_of(qv, k as int, base as nat) == match after {
        Some(a) => "after t"@ + decimal((base + a) as nat),
        None => default,
    });
    match after {
        Some(a) => {
            push_str(out, "after t");
            push_decimal(out, base + a);
        },
        None => {
            if k > 0 {
                push_str(out, "after t");
                push_decimal(out, base + k - 1);
            } else {
                push_str(out, "2025-01-01");
            }
        },
    }
    assert(out@ =~= old(out)@ + chart_start_of(qv, k as int, base as nat));
}

fn push_tag_prefix(out: &mut String, q: &ScheduledQuestion)
    ensures
        final(out)@ == old(out)@ + tag_prefix_of(q@),
{
    let crit = match q.priority {
        Priority::Critical => true,
        _ => false,
    };
    if crit && q.answered {
        push_str(out, "crit, done, ");
    } else if crit {
        push_str(out, "crit, ");
    } else if q.answered {
        push_str(out, "done, ");
    }
    assert(out@ =~= old(out)@ + tag_prefix_of(q@));
}

fn push_chart_line(out: &mut String, labels: &Vec<DayText>, qs: &Vec<ScheduledQuestion>, k: usize, base: usize)
    requires
        k < qs@.len(),
        base + k <= usize::MAX,
    ensures
        final(out)@ == old(out)@ + chart_line_of(
            day_text_views(labels@),
            sched_question_views(qs@),
            k as int,
            base as nat,
        ),
{
    let ghost qv = sched_question_views(qs@);
    assert(qv[k as int] == qs@[k as int]@);
    let q = &qs[k];
    let ghost s0 = out@;
    push_str(out, "    [Q");
    push_decimal(out, q.id);
    push_str(out, "] ");
    let c = sanitize_mermaid(q.content.as_str());
    push_str(out, c.as_str());
    push_str(out, " :");
    let ghost s1 = out@;
    assert(s1 =~= s0 + "    [Q"@ + decimal(qv[k as int].id as nat) + "] "@ + sanitize_mermaid_of(qv[k as int].content) + " :"@);
    push_tag_prefix(out, q);
    push_str(out, "t");
    push_decimal(out, base + k);
    push_str(out, ", ");
    let ghost s2 = out@;
    assert(s2 =~= s1 + tag_prefix_of(qv[k as int]) + "t"@ + decimal((base + k) as nat) + ", "@);
    push_chart_start(out, qs, k, base);
    push_str(out, ", ");
    push_str(out, day_text(labels, q.days.clamp_non_negative()));
    push_str(out, "d\n");
    assert(out@ =~= old(out)@ + chart_line_of(day_text_views(labels@), qv, k as int, base as nat));
}


fn push_chart_section(out: &mut String, labels: &Vec<DayText>, sched: &ObjectiveSchedule, base: usize)
    requires
        base + sched@.questions.len() <= usize::MAX,
    ensures
        final(out)@ == old(out)@ + chart_section_of(day_text_views(labels@), sched@, base as nat),
{
    let ghost lv = day_text_views(labels@);
    let ghost qv = sched@.questions;
    push_str(out, "    section ");
    let c = sanitize_mermaid(sched.objective.as_str());
    push_str(out, c.as_str());
    push_str(out, "\n");
    let ghost start = out@;
    let ghost parts = Seq::new(qv.len(), |k: int| chart_line_of(lv, qv, k, base as nat));
    assert(parts.take(0) =~= Seq::<Seq<char>>::empty());
    let mut k: usize = 0;
    while k < sched.questions.len()
        invariant
            k <= sched.questions@.len(),
            qv == sched_question_views(sched.questions@),
            lv == day_text_views(labels@),
            base + qv.len() <= usize::MAX,
            parts == Seq::new(qv.len(), |k: int| chart_line_of(lv, qv, k, base as nat)),
            out@ == start + concat_all(parts.take(k as int)),
        decreases sched.questions@.len() - k,
    {
        proof {
            lemma_concat_all_step(parts, k as int);
        }
        push_chart_line(out, labels, &sched.questions, k, base);
        k = k + 1;
    }
    proof {
        lemma_concat_all_full(parts);
    }
    assert(out@ =~= old(out)@ + chart_section_of(lv, sched@, base as nat));
}

/// The bars of the chart, a section per objective that has questions.
pub fn render_chart_body(schedule: &Vec<ObjectiveSchedule>, labels: &Vec<DayText>) -> (s: String)
    requires
        question_total(schedule_views(schedule@), schedule@.len() as nat) <= usize::MAX,
    ensures
        s@ == chart_body_of(day_text_views(labels@), schedule_views(schedule@)),
{
    let ghost lv = day_text_views(labels@);
    let ghost sv = schedule_views(schedule@);
    let mut out = String::new();
    let mut counter: usize = 0;
    let mut i: usize = 0;
    while i < schedule.len()
        invariant
            i <= schedule@.len(),
            sv == schedule_views(schedule@),
            lv == day_text_views(labels@),
            question_total(sv, sv.len()) <= usize::MAX,
            counter == question_total(sv, i as nat),
            out@ == chart_body_upto(lv, sv, i as nat),
        decreases schedule@.len() - i,
    {
        assert(sv[i as int] == schedule@[i as int]@);
        proof {
            lemma_question_total_monotone(sv, (i + 1) as nat, sv.len());
        }
        if schedule[i].questions.len() != 0 {
            push_chart_section(&mut out, labels, &schedule[i], counter);
        }
        assert(out@ =~= chart_body_upto(lv, sv, (i + 1) as nat));
        counter = counter + schedule[i].questions.len();
        i = i + 1;
    }
    out
}

proof fn lemma_question_total_monotone(sv: Seq<ScheduleView>, a: nat, b: nat)
    requires
        a <= b <= sv.len(),
    ensures
        question_total(sv, a) <= question_total(sv, b),
    decreases b,
{
    if a < b {
        lemma_question_total_monotone(sv, a, (b - 1) as nat);
    }
}

/// The start of the chart: the Mermaid block, its theme and the chart
/// settings.
pub open spec fn chart_head() -> Seq<char> {
    "```mermaid\n---\nconfig:\n  theme: base\n  themeVariables:\n    taskBkgColor: '#1f3a5f'\n    taskBorderColor: '#000000'\n    taskTextColor: '#ffffff'\n    taskTextLightColor: '#ffffff'\n    taskTextDarkColor: '#ffffff'\n    taskTextOutsideColor: '#ffffff'\n    critBkgColor: '#7a1f1f'\n    critBorderColor: '#000000'\n    activeTaskBkgColor: '#1f5a4a'\n    activeTaskBorderColor: '#000000'\n    doneTaskBkgColor: '#444444'\n    doneTaskBorderColor: '#666666'\n    sectionBkgColor: '#2a2a2a'\n    altSectionBkgColor: '#1a1a1a'\n    sectionBkgColor2: '#3a3a3a'\n    gridColor: '#888888'\n    titleColor: '#ffffff'\n    textColor: '#ffffff'\n    primaryTextColor: '#ffffff'\n    todayLineColor: '#ff6b6b'\n---\ngantt\n    title Schedule\n    dateFormat YYYY-MM-DD\n    axisFormat %m-%d\n"@
}

/// Whether any schedule has a question.
pub open spec fn has_any_question(scheds: Seq<ScheduleView>) -> bool {
    exists|i: int| 0 <= i < scheds.len() && scheds[i].questions.len() > 0
}

/// The Markdown chart document: the Mermaid chart (with bars when any
/// objective has questions), then the reference tables.
pub open spec fn gantt_markdown_of(labels: Seq<(Days, Seq<char>)>, scheds: Seq<ScheduleView>) -> Seq<char> {
    chart_head() + (if has_any_question(scheds) { chart_body_of(labels, scheds) } else { Seq::empty() }) + "```\n\n"@
        + "## Reference\n\n"@ + table_body_of(labels, scheds)
}

/// The chart document for the schedules.
pub fn render_schedule_markdown(schedule: &Vec<ObjectiveSchedule>, labels: &Vec<DayText>) -> (s: String)
    requires
        question_total(schedule_views(schedule@), schedule@.len() as nat) <= usize::MAX,
    ensures
        s@ == gantt_markdown_of(day_text_views(labels@), schedule_views(schedule@)),
{
    let ghost sv = schedule_views(schedule@);
    let mut has_any = false;
    let mut i: usize = 0;
    while i < schedule.len()
        invariant
            i <= schedule@.len(),
            sv == schedule_views(schedule@),
            has_any == exists|j: int| 0 <= j < i && sv[j].questions.len() > 0,
        decreases schedule@.len() - i,
    {
        assert(sv[i as int] == schedule@[i as int]@);
        if schedule[i].questions.len() != 0 {
            has_any = true;
        }
        i = i + 1;
    }
    let mut out = String::from_str(
        "```mermaid\n---\nconfig:\n  theme: base\n  themeVariables:\n    taskBkgColor: '#1f3a5f'\n    taskBorderColor: '#000000'\n    taskTextColor: '#ffffff'\n    taskTextLightColor: '#ffffff'\n    taskTextDarkColor: '#ffffff'\n    taskTextOutsideColor: '#ffffff'\n    critBkgColor: '#7a1f1f'\n    critBorderColor: '#000000'\n    activeTaskBkgColor: '#1f5a4a'\n    activeTaskBorderColor: '#000000'\n    doneTaskBkgColor: '#444444'\n    doneTaskBorderColor: '#666666'\n    sectionBkgColor: '#2a2a2a'\n    altSectionBkgColor: '#1a1a1a'\n    sectionBkgColor2: '#3a3a3a'\n    gridColor: '#888888'\n    titleColor: '#ffffff'\n    textColor: '#ffffff'\n    primaryTextColor: '#ffffff'\n    todayLineColor: '#ff6b6b'\n---\ngantt\n    title Schedule\n    dateFormat YYYY-MM-DD\n    axisFormat %m-%d\n",
    );
    if has_any {
        let body = render_chart_body(schedule, labels);
        push_str(&mut out, body.as_str());
    }
    push_str(&mut out, "```\n\n");
    push_str(&mut out, "## Reference\n\n");
    let table = render_table_body(schedule, labels);
    push_str(&mut out, table.as_str());
    assert(out@ =~= gantt_markdown_of(day_text_views(labels@), sv));
    out
}

/// The chart document for the objectives; `question_days[i][j]` is the
/// total time of question `j` of objective `i`, and `labels` renders times.
pub fn render_markdown(objectives: &[Objective], question_days: &Vec<Vec<Days>>, labels: &Vec<DayText>) -> (s: String)
    requires
        question_days@.len() == objectives@.len(),
        forall|i: int| 0 <= i < objectives@.len() ==> (#[trigger] question_days@[i])@.len() == objectives@[i]@.questions.len(),
        question_total(
            Seq::new(objectives@.len(), |i: int| schedule_of(objectives@[i]@, question_days@[i]@)),
            objectives@.len() as nat,
        ) <= usize::MAX,
    ensures
        s@ == gantt_markdown_of(
            day_text_views(labels@),
            Seq::new(objectives@.len(), |i: int| schedule_of(objectives@[i]@, question_days@[i]@)),
        ),
{
    let schedule = objectives_to_schedule(objectives, question_days);
    assert(schedule_views(schedule@) =~= Seq::new(
        objectives@.len(),
        |i: int| schedule_of(objectives@[i]@, question_days@[i]@),
    ));
    render_schedule_markdown(&schedule, labels)
}


/// The text that a `comfy_table` table with the `ASCII_FULL` preset prints
/// for the given header and rows, each cell given by its text.
pub uninterp spec fn ascii_full_table(header: Seq<Seq<char>>, rows: Seq<Seq<Seq<char>>>) -> Seq<char>;

pub open spec fn string_views(s: Seq<String>) -> Seq<Seq<char>> {
    s.map_values(|c: String| c@)
}

pub open spec fn row_views(s: Seq<Vec<String>>) -> Seq<Seq<Seq<char>>> {
    s.map_values(|r: Vec<String>| string_views(r@))
}

/// Lays out a table with `comfy_table`.
///
/// Trusted: builds a `comfy_table::Table` (which starts with content
/// arrangement disabled), loads the `ASCII_FULL` preset, sets the header,
/// adds the rows, and prints it with `to_string`.  The contract only names
/// the result as a function of the header and the rows: with the
/// arrangement disabled and no cell styled, the layout depends on nothing
/// else.  What that layout is, is not stated.
#[verifier::external_body]
fn ascii_table(header: &Vec<String>, rows: &Vec<Vec<String>>) -> (s: String)
    ensures
        s@ == ascii_full_table(string_views(header@), row_views(rows@)),
{
    let mut table = comfy_table::Table::new();
    table.load_preset(comfy_table::presets::ASCII_FULL);
    table.set_header(header.clone());
    table.add_rows(rows.clone());
    table.to_string()
}

pub open spec fn ascii_header() -> Seq<Seq<char>> {
    seq!["Pri"@, "Name"@, "Days"@, "Bar"@]
}

/// The table row of a task: its priority letter, name, days and bar.
pub open spec fn ascii_row_of(labels: Seq<(Days, Seq<char>)>, bars: Seq<(Days, Seq<char>)>, t: TaskView) -> Seq<Seq<char>> {
    seq![seq![t.priority.letter_of()], t.name, day_label(labels, t.days), day_label(bars, t.days)]
}

/// One section of the text chart: its label in brackets and its table.
pub open spec fn ascii_section_of(
    labels: Seq<(Days, Seq<char>)>,
    bars: Seq<(Days, Seq<char>)>,
    ts: Seq<TaskView>,
    sec: SectionView,
) -> Seq<char> {
    "["@ + sec.0 + "]\n"@ + ascii_full_table(
        ascii_header(),
        sec.1.map_values(|i: usize| ascii_row_of(labels, bars, ts[i as int])),
    ) + "\n\n"@
}

/// The text chart: a title, then `(no tasks)` or a table per section.
pub open spec fn ascii_of(labels: Seq<(Days, Seq<char>)>, bars: Seq<(Days, Seq<char>)>, ts: Seq<TaskView>) -> Seq<char> {
    "SCHEDULE\n========\n\n"@ + if ts.len() == 0 {
        "(no tasks)\n"@
    } else {
        concat_all(grouped_sorted_of(ts).map_values(|sec: SectionView| ascii_section_of(labels, bars, ts, sec)))
    }
}

fn ascii_row(t: &GanttTask, labels: &Vec<DayText>, bars: &Vec<DayText>) -> (r: Vec<String>)
    ensures
        string_views(r@) == ascii_row_of(day_text_views(labels@), day_text_views(bars@), t@),
{
    let mut letter = String::new();
    push_char(&mut letter, t.priority.letter());
    let mut r: Vec<String> = Vec::new();
    r.push(letter);
    r.push(t.name.clone());
    r.push(String::from_str(day_text(labels, t.days)));
    r.push(String::from_str(day_text(bars, t.days)));
    assert(string_views(r@) =~= ascii_row_of(day_text_views(labels@), day_text_views(bars@), t@));
    r
}

/// The text chart of the tasks; `labels` renders each task's days and
/// `bars` its bar.
pub fn render_ascii(tasks: &[GanttTask], labels: &Vec<DayText>, bars: &Vec<DayText>) -> (s: String)
    requires
        section_sums_fit(task_views(tasks@)),
    ensures
        s@ == ascii_of(day_text_views(labels@), day_text_views(bars@), task_views(tasks@)),
{
    let ghost lv = day_text_views(labels@);
    let ghost bv = day_text_views(bars@);
    let ghost ts = task_views(tasks@);
    let mut out = String::from_str("SCHEDULE\n========\n\n");
    if tasks.len() == 0 {
        push_str(&mut out, "(no tasks)\n");
        assert(out@ =~= ascii_of(lv, bv, ts));
        return out;
    }
    let sections = grouped_sorted(tasks);
    let ghost secs = grouped_sorted_of(ts);
    let ghost parts = secs.map_values(|sec: SectionView| ascii_section_of(lv, bv, ts, sec));
    proof {
        lemma_grouped_sorted_in_range(ts);
    }
    let mut header: Vec<String> = Vec::new();
    header.push(String::from_str("Pri"));
    header.push(String::from_str("Name"));
    header.push(String::from_str("Days"));
    header.push(String::from_str("Bar"));
    assert(string_views(header@) =~= ascii_header());
    let ghost start = out@;
    assert(parts.take(0) =~= Seq::<Seq<char>>::empty());
    let mut k: usize = 0;
    while k < sections.len()
        invariant
            k <= sections@.len(),
            lv == day_text_views(labels@),
            bv == day_text_views(bars@),
            ts == task_views(tasks@),
            section_views(sections@) == secs,
            secs == grouped_sorted_of(ts),
            string_views(header@) == ascii_header(),
            forall|j: int, t: int|
                0 <= j < secs.len() && 0 <= t < secs[j].1.len() ==> #[trigger] secs[j].1[t] < ts.len(),
            parts == secs.map_values(|sec: SectionView| ascii_section_of(lv, bv, ts, sec)),
            out@ == start + concat_all(parts.take(k as int)),
        decreases sections@.len() - k,
    {
        proof {
            lemma_concat_all_step(parts, k as int);
        }
        let label = sections[k].0.as_str();
        let idxs = &sections[k].1;
        assert(secs[k as int] == (label@, idxs@));
        let mut rows: Vec<Vec<String>> = Vec::new();
        let mut j: usize = 0;
        while j < idxs.len()
            invariant
                j <= idxs@.len(),
                secs[k as int] == (label@, idxs@),
                0 <= k < secs.len(),
                lv == day_text_views(labels@),
                bv == day_text_views(bars@),
                ts == task_views(tasks@),
                forall|j: int, t: int|
                    0 <= j < secs.len() && 0 <= t < secs[j].1.len() ==> #[trigger] secs[j].1[t] < ts.len(),
                rows@.len() == j,
                forall|t: int| 0 <= t < j ==> #[trigger] row_views(rows@)[t] == ascii_row_of(lv, bv, ts[idxs@[t] as int]),
            decreases idxs@.len() - j,
        {
            let i = idxs[j];
            assert(secs[k as int].1[j as int] < ts.len());
            assert(ts[i as int] == tasks@[i as int]@);
            let ghost before = rows@;
            rows.push(ascii_row(&tasks[i], labels, bars));
            assert forall|t: int| 0 <= t < j + 1 implies #[trigger] row_views(rows@)[t] == ascii_row_of(lv, bv, ts[idxs@[t] as int]) by {
                if t < j {
                    assert(rows@[t] == before[t]);
                    assert(row_views(before)[t] == ascii_row_of(lv, bv, ts[idxs@[t] as int]));
                }
            }
            j = j + 1;
        }
        assert(row_views(rows@) =~= idxs@.map_values(|i: usize| ascii_row_of(lv, bv, ts[i as int])));
        push_str(&mut out, "[");
        push_str(&mut out, label);
        push_str(&mut out, "]\n");
        let table = ascii_table(&header, &rows);
        push_str(&mut out, table.as_str());
        push_str(&mut out, "\n\n");
        k = k + 1;
    }
    proof {
        lemma_concat_all_full(parts);
    }
    assert(out@ =~= ascii_of(lv, bv, ts));
    out
}

} // verus!
