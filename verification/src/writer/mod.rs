//! From objectives to chart tasks and schedules: tag scores, the group
//! picked for each objective, and each objective's questions in chart order.
pub mod gantt;
pub mod order;
pub mod todo;

use crate::days::Days;
use crate::priority::Priority;
use crate::questions::{action_views, question_views, tag_views, ActionPoint, ActionView, Objective, ObjectiveView, Question, QuestionView};
use crate::text::{lemma_lex_less_irreflexive, lemma_lex_less_transitive, lex_less, str_eq, str_less};
use crate::writer::gantt::{opt_string_view, task_views, GanttTask, TaskView};
use crate::writer::order::{gantt_order, question_score, sort_questions_for_gantt, distinct_below};
use vstd::prelude::*;

verus! {

/// The sum of the priority scores of the questions.
pub open spec fn score_sum(qs: Seq<QuestionView>) -> nat
    decreases qs.len(),
{
    if qs.len() == 0 {
        0
    } else {
        score_sum(qs.drop_last()) + question_score(qs.last()) as nat
    }
}

/// How many of the tags carry the name.
pub open spec fn name_count(tags: Seq<Seq<char>>, name: Seq<char>) -> nat
    decreases tags.len(),
{
    if tags.len() == 0 {
        0
    } else {
        name_count(tags.drop_last(), name) + if tags.last() == name { 1nat } else { 0nat }
    }
}

/// The score of a tag over the first `n` objectives: for each tag of that
/// name on an objective, the objective's question score sum.
pub open spec fn tag_score_upto(objs: Seq<ObjectiveView>, name: Seq<char>, n: nat) -> nat
    decreases n,
{
    if n == 0 {
        0
    } else {
        tag_score_upto(objs, name, (n - 1) as nat) + score_sum(objs[n - 1].questions) * name_count(
            objs[n - 1].tags,
            name,
        )
    }
}

pub open spec fn tag_score(objs: Seq<ObjectiveView>, name: Seq<char>) -> nat {
    tag_score_upto(objs, name, objs.len())
}

/// Every tag's score fits in a `u32`, so that summing it never overflows.
pub open spec fn tag_scores_fit(objs: Seq<ObjectiveView>) -> bool {
    forall|name: Seq<char>| #[trigger] tag_score(objs, name) <= u32::MAX
}

pub open spec fn objective_views_of(s: Seq<Objective>) -> Seq<ObjectiveView> {
    s.map_values(|o: Objective| o@)
}

/// Whether some of the first `n` objectives carries a tag of that name.
pub open spec fn tagged_upto(objs: Seq<ObjectiveView>, name: Seq<char>, n: nat) -> bool {
    exists|i: int| 0 <= i < n && objs[i].tags.contains(name)
}

/// The score recorded for a name: that of its first entry, or zero.
pub open spec fn score_lookup(scores: Seq<(Seq<char>, u32)>, name: Seq<char>) -> u32
    decreases scores.len(),
{
    if scores.len() == 0 {
        0
    } else if scores[0].0 == name {
        scores[0].1
    } else {
        score_lookup(scores.drop_first(), name)
    }
}

pub open spec fn score_entry_views(s: Seq<(String, u32)>) -> Seq<(Seq<char>, u32)> {
    s.map_values(|e: (String, u32)| (e.0@, e.1))
}

fn objective_priority_score_sum(o: &Objective) -> (s: u32)
    requires
        score_sum(o@.questions) <= u32::MAX,
    ensures
        s == score_sum(o@.questions),
{
    let qs = o.questions();
    let ghost qv = o@.questions;
    let mut s: u32 = 0;
    let mut i: usize = 0;
    while i < qs.len()
        invariant
            i <= qs.len(),
            qv == question_views(qs@),
            qv.len() == qs@.len(),
            score_sum(qv) <= u32::MAX,
            s == score_sum(qv.take(i as int)),
        decreases qs.len() - i,
    {
        assert(qv.take(i + 1).drop_last() =~= qv.take(i as int));
        assert(qv[i as int] == qs@[i as int]@);
        proof {
            lemma_score_sum_prefix(qv, (i + 1) as nat);
        }
        s = s + Priority::from(qs[i].priority()).score() as u32;
        i = i + 1;
    }
    assert(qv.take(i as int) =~= qv);
    s
}

proof fn lemma_score_sum_prefix(qs: Seq<QuestionView>, k: nat)
    requires
        k <= qs.len(),
    ensures
        score_sum(qs.take(k as int)) <= score_sum(qs),
    decreases qs.len(),
{
    if k < qs.len() {
        assert(qs.drop_last().take(k as int) =~= qs.take(k as int));
        lemma_score_sum_prefix(qs.drop_last(), k);
    } else {
        assert(qs.take(k as int) =~= qs);
    }
}


proof fn lemma_name_count_bound(tags: Seq<Seq<char>>, name: Seq<char>)
    ensures
        name_count(tags, name) <= tags.len(),
        name_count(tags, name) > 0 <==> tags.contains(name),
    decreases tags.len(),
{
    if tags.len() > 0 {
        lemma_name_count_bound(tags.drop_last(), name);
        if tags.drop_last().contains(name) {
            let i = choose|i: int| 0 <= i < tags.drop_last().len() && tags.drop_last()[i] == name;
            assert(tags[i] == name);
        }
        if tags.contains(name) && tags.last() != name {
            let i = choose|i: int| 0 <= i < tags.len() && tags[i] == name;
            assert(tags.drop_last()[i] == name);
        }
    }
}

proof fn lemma_name_count_prefix(tags: Seq<Seq<char>>, k: int, name: Seq<char>)
    requires
        0 <= k <= tags.len(),
    ensures
        name_count(tags.take(k), name) <= name_count(tags, name),
    decreases tags.len(),
{
    if k < tags.len() {
        assert(tags.drop_last().take(k) =~= tags.take(k));
        lemma_name_count_prefix(tags.drop_last(), k, name);
    } else {
        assert(tags.take(k) =~= tags);
    }
}

proof fn lemma_tag_score_monotone(objs: Seq<ObjectiveView>, name: Seq<char>, a: nat, b: nat)
    requires
        a <= b <= objs.len(),
    ensures
        tag_score_upto(objs, name, a) <= tag_score_upto(objs, name, b),
    decreases b,
{
    if a < b {
        lemma_tag_score_monotone(objs, name, a, (b - 1) as nat);
    }
}

/// The names in the table, in order.
pub open spec fn entry_names(s: Seq<(Seq<char>, u32)>) -> Seq<Seq<char>> {
    s.map_values(|e: (Seq<char>, u32)| e.0)
}

/// The score of `name` counting the first `i` objectives whole and the first
/// `k` tags of objective `i`.
pub open spec fn partial_tag_score(objs: Seq<ObjectiveView>, name: Seq<char>, i: nat, k: nat) -> nat {
    tag_score_upto(objs, name, i) + if i < objs.len() {
        score_sum(objs[i as int].questions) * name_count(objs[i as int].tags.take(k as int), name)
    } else {
        0
    }
}

proof fn lemma_name_count_push(tags: Seq<Seq<char>>, x: Seq<char>, name: Seq<char>)
    ensures
        name_count(tags.push(x), name) == name_count(tags, name) + if x == name { 1nat } else { 0nat },
{
    assert(tags.push(x).drop_last() =~= tags);
}

proof fn lemma_tag_score_zero(objs: Seq<ObjectiveView>, name: Seq<char>, n: nat)
    requires
        n <= objs.len(),
        !tagged_upto(objs, name, n),
    ensures
        tag_score_upto(objs, name, n) == 0,
    decreases n,
{
    if n > 0 {
        assert(!tagged_upto(objs, name, (n - 1) as nat)) by {
            if tagged_upto(objs, name, (n - 1) as nat) {
                let i = choose|i: int| 0 <= i < n - 1 && objs[i].tags.contains(name);
                assert(0 <= i < n && objs[i].tags.contains(name));
            }
        }
        lemma_tag_score_zero(objs, name, (n - 1) as nat);
        assert(!objs[n - 1].tags.contains(name));
        lemma_name_count_bound(objs[n - 1].tags, name);
        vstd::arithmetic::mul::lemma_mul_basics(score_sum(objs[n - 1].questions) as int);
    }
}

proof fn lemma_take_push_contains(tv: Seq<Seq<char>>, k: int)
    requires
        0 <= k < tv.len(),
    ensures
        forall|other: Seq<char>| #[trigger] tv.take(k + 1).contains(other) <==> (tv.take(k).contains(other) || other == tv[k]),
{
    let t1 = tv.take(k + 1);
    let t0 = tv.take(k);
    assert forall|other: Seq<char>| #[trigger] t1.contains(other) <==> (t0.contains(other) || other == tv[k]) by {
        if t1.contains(other) && other != tv[k] {
            let x = choose|x: int| 0 <= x < t1.len() && t1[x] == other;
            assert(t0[x] == other);
        }
        if t0.contains(other) {
            let x = choose|x: int| 0 <= x < t0.len() && t0[x] == other;
            assert(t1[x] == other);
        }
        if other == tv[k] {
            assert(t1[k] == other);
        }
    }
}

/// Adds `s` to the entry named `name`, or appends the entry `(name, s)`.
fn bump_entry(sums: &mut Vec<(String, u32)>, name: &str, s: u32)
    requires
        entry_names(score_entry_views(old(sums)@)).no_duplicates(),
        forall|j: int| 0 <= j < old(sums)@.len() && old(sums)@[j].0@ == name@ ==> old(sums)@[j].1 + s <= u32::MAX,
    ensures
        entry_names(score_entry_views(final(sums)@)).no_duplicates(),
        match entry_names(score_entry_views(old(sums)@)).index_of_first(name@) {
            Some(j) => score_entry_views(final(sums)@) == score_entry_views(old(sums)@).update(
                j,
                (name@, (old(sums)@[j].1 + s) as u32),
            ),
            None => score_entry_views(final(sums)@) == score_entry_views(old(sums)@).push((name@, s)),
        },
{
    let ghost names = entry_names(score_entry_views(old(sums)@));
    let mut j: usize = 0;
    while j < sums.len()
        invariant
            j <= sums@.len(),
            sums@ == old(sums)@,
            names == entry_names(score_entry_views(sums@)),
            names.no_duplicates(),
            forall|t: int| 0 <= t < old(sums)@.len() && old(sums)@[t].0@ == name@ ==> old(sums)@[t].1 + s <= u32::MAX,
            forall|t: int| 0 <= t < j ==> sums@[t].0@ != name@,
        decreases sums@.len() - j,
    {
        if str_eq(sums[j].0.as_str(), name) {
            proof {
                assert(names[j as int] == name@);
                assert(names.contains(name@));
                names.index_of_first_ensures(name@);
                let f = names.index_of_first(name@)->0;
                if f < j {
                    assert(names[f] == sums@[f].0@);
                }
            }
            let v = sums[j].1;
            let n = sums[j].0.clone();
            sums.set(j, (n, v + s));
            assert(score_entry_views(sums@) =~= score_entry_views(old(sums)@).update(j as int, (name@, (v + s) as u32)));
            assert(entry_names(score_entry_views(sums@)) =~= names);
            return;
        }
        j = j + 1;
    }
    proof {
        names.index_of_first_ensures(name@);
        if names.contains(name@) {
            let t = choose|t: int| 0 <= t < names.len() && names[t] == name@;
            assert(names[t] == sums@[t].0@);
        }
    }
    sums.push((String::from_str(name), s));
    assert(score_entry_views(sums@) =~= score_entry_views(old(sums)@).push((name@, s)));
    assert(entry_names(score_entry_views(sums@)) =~= names.push(name@));
    assert(entry_names(score_entry_views(sums@)).no_duplicates()) by {
        let nn = entry_names(score_entry_views(sums@));
        assert forall|a: int, b: int| 0 <= a < nn.len() && 0 <= b < nn.len() && a != b implies nn[a] != nn[b] by {
            if a < names.len() && b < names.len() {
                assert(names[a] != names[b]);
            } else if a < names.len() {
                assert(nn[a] == names[a]);
            } else if b < names.len() {
                assert(nn[b] == names[b]);
            }
        }
    }
}

/// For every tag name that occurs on any objective, the sum over the
/// objectives carrying it (once per occurrence) of the objective's question
/// priority scores.  Each name appears once; names that no objective
/// carries do not appear.
pub fn tag_priority_score_sums(objectives: &[Objective]) -> (sums: Vec<(String, u32)>)
    requires
        forall|i: int| 0 <= i < objectives@.len() ==> score_sum(#[trigger] objectives@[i]@.questions) <= u32::MAX,
        tag_scores_fit(objective_views_of(objectives@)),
    ensures
        entry_names(score_entry_views(sums@)).no_duplicates(),
        forall|name: Seq<char>|
            #![trigger entry_names(score_entry_views(sums@)).contains(name)]
            entry_names(score_entry_views(sums@)).contains(name) <==> tagged_upto(
                objective_views_of(objectives@),
                name,
                objectives@.len() as nat,
            ),
        forall|j: int|
            0 <= j < sums@.len() ==> #[trigger] sums@[j].1 == tag_score(
                objective_views_of(objectives@),
                sums@[j].0@,
            ),
{
    let ghost ov = objective_views_of(objectives@);
    let mut sums: Vec<(String, u32)> = Vec::new();
    let mut i: usize = 0;
    assert(entry_names(score_entry_views(sums@)) =~= Seq::empty());
    while i < objectives.len()
        invariant
            i <= objectives@.len(),
            ov == objective_views_of(objectives@),
            ov.len() == objectives@.len(),
            forall|x: int| 0 <= x < objectives@.len() ==> score_sum(#[trigger] objectives@[x]@.questions) <= u32::MAX,
            tag_scores_fit(ov),
            entry_names(score_entry_views(sums@)).no_duplicates(),
            forall|name: Seq<char>|
                #![trigger entry_names(score_entry_views(sums@)).contains(name)]
                entry_names(score_entry_views(sums@)).contains(name) <==> tagged_upto(ov, name, i as nat),
            forall|j: int| 0 <= j < sums@.len() ==> #[trigger] sums@[j].1 == tag_score_upto(ov, sums@[j].0@, i as nat),
        decreases objectives@.len() - i,
    {
        let o = &objectives[i];
        assert(ov[i as int] == o@);
        assert(score_sum(objectives@[i as int]@.questions) <= u32::MAX);
        let s = objective_priority_score_sum(o);
        let tags = o.tags();
        let ghost tv = o@.tags;
        let mut k: usize = 0;
        proof {
            assert forall|j: int| 0 <= j < sums@.len() implies #[trigger] sums@[j].1 == partial_tag_score(ov, sums@[j].0@, i as nat, 0) by {
                assert(tv.take(0) =~= Seq::<Seq<char>>::empty());
                assert(name_count(tv.take(0), sums@[j].0@) == 0);
                vstd::arithmetic::mul::lemma_mul_basics(score_sum(o@.questions) as int);
            }
            assert forall|name: Seq<char>|
                #![trigger entry_names(score_entry_views(sums@)).contains(name)]
                entry_names(score_entry_views(sums@)).contains(name) <==> (tagged_upto(ov, name, i as nat)
                    || tv.take(0).contains(name)) by {
                assert(tv.take(0) =~= Seq::<Seq<char>>::empty());
            }
        }
        while k < tags.len()
            invariant
                i < objectives@.len(),
                k <= tags.len(),
                ov == objective_views_of(objectives@),
                ov.len() == objectives@.len(),
                ov[i as int] == o@,
                tv == o@.tags,
                tv == tag_views(tags@),
                tv.len() == tags@.len(),
                s == score_sum(o@.questions),
                tag_scores_fit(ov),
                entry_names(score_entry_views(sums@)).no_duplicates(),
                forall|name: Seq<char>|
                    #![trigger entry_names(score_entry_views(sums@)).contains(name)]
                    entry_names(score_entry_views(sums@)).contains(name) <==> (tagged_upto(ov, name, i as nat)
                        || tv.take(k as int).contains(name)),
                forall|j: int|
                    0 <= j < sums@.len() ==> #[trigger] sums@[j].1 == partial_tag_score(
                        ov,
                        sums@[j].0@,
                        i as nat,
                        k as nat,
                    ),
            decreases tags.len() - k,
        {
            assert(tv[k as int] == tags@[k as int]@);
            let ghost name = tv[k as int];
            let ghost before = sums@;
            let ghost names = entry_names(score_entry_views(before));
            assert(tv.take(k + 1) =~= tv.take(k as int).push(name));
            proof {
                assert forall|other: Seq<char>| #[trigger] name_count(tv.take(k + 1), other) == name_count(tv.take(k as int), other) + if name == other { 1nat } else { 0nat } by {
                    lemma_name_count_push(tv.take(k as int), name, other);
                }
                lemma_name_count_prefix(tv, k + 1, name);
                vstd::arithmetic::mul::lemma_mul_inequality(
                    name_count(tv.take((k + 1) as int), name) as int,
                    name_count(tv, name) as int,
                    s as int,
                );
                vstd::arithmetic::mul::lemma_mul_is_commutative(name_count(tv.take((k + 1) as int), name) as int, s as int);
                vstd::arithmetic::mul::lemma_mul_is_commutative(name_count(tv, name) as int, s as int);
                lemma_tag_score_monotone(ov, name, (i + 1) as nat, ov.len());
                assert(tag_score_upto(ov, name, (i + 1) as nat) == tag_score_upto(ov, name, i as nat) + s * name_count(tv, name));
                assert(tag_score(ov, name) <= u32::MAX);
                vstd::arithmetic::mul::lemma_mul_is_distributive_add(s as int, name_count(tv.take(k as int), name) as int, 1);
                assert(partial_tag_score(ov, name, i as nat, (k + 1) as nat) == partial_tag_score(ov, name, i as nat, k as nat) + s);
                assert(partial_tag_score(ov, name, i as nat, (k + 1) as nat) <= u32::MAX);
                assert forall|j: int| 0 <= j < before.len() && before[j].0@ == name implies before[j].1 + s <= u32::MAX by {
                }
            }
            bump_entry(&mut sums, tags[k].name(), s);
            proof {
                names.index_of_first_ensures(name);
                match names.index_of_first(name) {
                    Some(j0) => {
                        assert(names[j0] == before[j0].0@);
                        assert forall|j: int| 0 <= j < sums@.len() implies #[trigger] sums@[j].1 == partial_tag_score(ov, sums@[j].0@, i as nat, (k + 1) as nat) by {
                            assert(score_entry_views(sums@)[j] == (sums@[j].0@, sums@[j].1));
                            assert(score_entry_views(before)[j] == (before[j].0@, before[j].1));
                            if j != j0 {
                                assert(names[j] != names[j0]);
                                assert(names[j] == before[j].0@);
                            }
                        }
                        assert(entry_names(score_entry_views(sums@)) =~= names) by {
                            assert forall|t: int| 0 <= t < names.len() implies entry_names(score_entry_views(sums@))[t] == names[t] by {
                                assert(score_entry_views(sums@)[t] == (sums@[t].0@, sums@[t].1));
                            }
                        }
                        assert(names.contains(name));
                        lemma_take_push_contains(tv, k as int);
                    },
                    None => {
                        assert(!tagged_upto(ov, name, i as nat) && !tv.take(k as int).contains(name));
                        lemma_tag_score_zero(ov, name, i as nat);
                        lemma_name_count_bound(tv.take(k as int), name);
                        assert forall|j: int| 0 <= j < sums@.len() implies #[trigger] sums@[j].1 == partial_tag_score(ov, sums@[j].0@, i as nat, (k + 1) as nat) by {
                            assert(score_entry_views(sums@)[j] == (sums@[j].0@, sums@[j].1));
                            if j < before.len() {
                                assert(score_entry_views(before)[j] == (before[j].0@, before[j].1));
                                assert(names[j] == before[j].0@);
                                assert(names[j] != name);
                            }
                        }
                        assert(entry_names(score_entry_views(sums@)) =~= names.push(name)) by {
                            assert forall|t: int| 0 <= t < names.len() + 1 implies entry_names(score_entry_views(sums@))[t] == names.push(name)[t] by {
                                assert(score_entry_views(sums@)[t] == (sums@[t].0@, sums@[t].1));
                            }
                        }
                        lemma_take_push_contains(tv, k as int);
                        assert forall|other: Seq<char>| #[trigger] names.push(name).contains(other) <==> (names.contains(other) || other == name) by {
                            if names.push(name).contains(other) && other != name {
                                let x = choose|x: int| 0 <= x < names.len() + 1 && names.push(name)[x] == other;
                                assert(names[x] == other);
                            }
                            if names.contains(other) {
                                let x = choose|x: int| 0 <= x < names.len() && names[x] == other;
                                assert(names.push(name)[x] == other);
                            }
                            if other == name {
                                assert(names.push(name)[names.len() as int] == other);
                            }
                        }
                    },
                }
            }
            k = k + 1;
        }
        proof {
            assert(tv.take(tv.len() as int) =~= tv);
            assert forall|name: Seq<char>| tagged_upto(ov, name, (i + 1) as nat) <==> (tagged_upto(ov, name, i as nat) || tv.contains(name)) by {
                if tagged_upto(ov, name, (i + 1) as nat) && !tv.contains(name) {
                    let x = choose|x: int| 0 <= x < i + 1 && ov[x].tags.contains(name);
                    assert(x != i);
                }
            }
        }
        i = i + 1;
    }
    sums
}


/// The priority of the questions with the highest score among the first
/// `n`, the later one on a tie; none for no questions.
pub open spec fn max_priority_upto(qs: Seq<QuestionView>, n: nat) -> Option<Priority>
    decreases n,
{
    if n == 0 {
        None
    } else {
        let p = Priority::of_question(qs[n - 1].priority);
        match max_priority_upto(qs, (n - 1) as nat) {
            None => Some(p),
            Some(b) => if p.score_of() >= b.score_of() {
                Some(p)
            } else {
                Some(b)
            },
        }
    }
}

/// The highest priority among an objective's questions; `Medium` when it
/// has none.
pub open spec fn max_priority(qs: Seq<QuestionView>) -> Priority {
    match max_priority_upto(qs, qs.len()) {
        Some(p) => p,
        None => Priority::Medium,
    }
}

proof fn lemma_max_priority_upto(qs: Seq<QuestionView>, n: nat)
    requires
        n <= qs.len(),
    ensures
        n == 0 <==> max_priority_upto(qs, n) is None,
        max_priority_upto(qs, n) matches Some(p) ==> (exists|i: int| 0 <= i < n && Priority::of_question(#[trigger] qs[i].priority) == p)
            && forall|i: int| 0 <= i < n ==> Priority::of_question(#[trigger] qs[i].priority).score_of() <= p.score_of(),
    decreases n,
{
    if n > 0 {
        lemma_max_priority_upto(qs, (n - 1) as nat);
        let p = Priority::of_question(qs[n - 1].priority);
        if let Some(b) = max_priority_upto(qs, (n - 1) as nat) {
            if p.score_of() < b.score_of() {
                let i = choose|i: int| 0 <= i < n - 1 && Priority::of_question(#[trigger] qs[i].priority) == b;
                assert(0 <= i < n && Priority::of_question(qs[i].priority) == b);
            }
        }
    }
}

/// The highest priority among an objective's questions is the priority of
/// one of them, and no question has a higher one; with no questions it is
/// `Medium`.
pub proof fn max_priority_is_greatest(qs: Seq<QuestionView>)
    ensures
        qs.len() == 0 ==> max_priority(qs) == Priority::Medium,
        qs.len() > 0 ==> exists|i: int| 0 <= i < qs.len() && Priority::of_question(#[trigger] qs[i].priority) == max_priority(qs),
        forall|i: int| 0 <= i < qs.len() ==> Priority::of_question(#[trigger] qs[i].priority).score_of() <= max_priority(qs).score_of(),
{
    lemma_max_priority_upto(qs, qs.len());
}

fn objective_max_priority(o: &Objective) -> (p: Priority)
    ensures
        p == max_priority(o@.questions),
{
    let qs = o.questions();
    let ghost qv = o@.questions;
    let mut best: Option<Priority> = None;
    let mut i: usize = 0;
    while i < qs.len()
        invariant
            i <= qs.len(),
            qv == question_views(qs@),
            qv.len() == qs@.len(),
            best == max_priority_upto(qv, i as nat),
        decreases qs.len() - i,
    {
        assert(qv[i as int] == qs@[i as int]@);
        let p = Priority::from(qs[i].priority());
        best = match best {
            None => Some(p),
            Some(b) => if p.score() >= b.score() {
                Some(p)
            } else {
                Some(b)
            },
        };
        i = i + 1;
    }
    match best {
        Some(p) => p,
        None => Priority::Medium,
    }
}

/// Whether a tag with score `sc` and name `name` is preferred over the
/// current choice: a higher score, or the same score and an earlier name.
pub open spec fn preferred(name: Seq<char>, sc: int, best: Option<(Seq<char>, int)>) -> bool {
    match best {
        None => true,
        Some((b_name, b_score)) => sc > b_score || (sc == b_score && lex_less(name, b_name)),
    }
}

/// The preferred tag among the first `n`, with its score, under the score
/// function `f`.
pub open spec fn pick_upto(tags: Seq<Seq<char>>, f: spec_fn(Seq<char>) -> int, n: nat) -> Option<(Seq<char>, int)>
    decreases n,
{
    if n == 0 {
        None
    } else {
        let prev = pick_upto(tags, f, (n - 1) as nat);
        let name = tags[n - 1];
        if preferred(name, f(name), prev) {
            Some((name, f(name)))
        } else {
            prev
        }
    }
}

/// The group of an objective: the name of its tag with the highest score,
/// the alphabetically first on a tie; none for an untagged objective.
pub open spec fn pick_of(tags: Seq<Seq<char>>, f: spec_fn(Seq<char>) -> int) -> Option<Seq<char>> {
    match pick_upto(tags, f, tags.len()) {
        Some((name, _)) => Some(name),
        None => None,
    }
}

proof fn lemma_pick_upto(tags: Seq<Seq<char>>, f: spec_fn(Seq<char>) -> int, n: nat)
    requires
        n <= tags.len(),
    ensures
        n == 0 <==> pick_upto(tags, f, n) is None,
        pick_upto(tags, f, n) matches Some((g, gs)) ==> {
            &&& gs == f(g)
            &&& exists|i: int| 0 <= i < n && tags[i] == g
            &&& forall|i: int|
                0 <= i < n ==> f(#[trigger] tags[i]) < gs || (f(tags[i]) == gs && !lex_less(tags[i], g))
        },
    decreases n,
{
    if n > 0 {
        lemma_pick_upto(tags, f, (n - 1) as nat);
        let prev = pick_upto(tags, f, (n - 1) as nat);
        let name = tags[n - 1];
        if preferred(name, f(name), prev) {
            lemma_lex_less_irreflexive(name);
            assert forall|i: int| 0 <= i < n implies f(#[trigger] tags[i]) < f(name) || (f(tags[i]) == f(name)
                && !lex_less(tags[i], name)) by {
                if i < n - 1 {
                    let (b, bs) = prev->0;
                    if f(tags[i]) == bs && bs == f(name) && lex_less(tags[i], name) {
                        lemma_lex_less_transitive(tags[i], name, b);
                    }
                }
            }
        } else {
            let (b, bs) = prev->0;
            let i = choose|i: int| 0 <= i < n - 1 && tags[i] == b;
            assert(0 <= i < n && tags[i] == b);
        }
    }
}

/// The chosen group is one of the objective's tags, and every tag of the
/// objective has a lower score, or the same score and a name that does not
/// sort before the chosen one.
pub proof fn pick_is_best(tags: Seq<Seq<char>>, f: spec_fn(Seq<char>) -> int)
    ensures
        tags.len() == 0 <==> pick_of(tags, f) is None,
        pick_of(tags, f) matches Some(g) ==> tags.contains(g) && forall|i: int|
            0 <= i < tags.len() ==> f(#[trigger] tags[i]) < f(g) || (f(tags[i]) == f(g) && !lex_less(tags[i], g)),
{
    lemma_pick_upto(tags, f, tags.len());
}

proof fn lemma_pick_upto_agree(tags: Seq<Seq<char>>, f: spec_fn(Seq<char>) -> int, g: spec_fn(Seq<char>) -> int, n: nat)
    requires
        n <= tags.len(),
        forall|i: int| 0 <= i < n ==> f(#[trigger] tags[i]) == g(tags[i]),
    ensures
        pick_upto(tags, f, n) == pick_upto(tags, g, n),
    decreases n,
{
    if n > 0 {
        lemma_pick_upto_agree(tags, f, g, (n - 1) as nat);
        assert(f(tags[n - 1]) == g(tags[n - 1]));
    }
}

/// The score recorded for a name in the table.
fn lookup_score(scores: &Vec<(String, u32)>, name: &str) -> (r: u32)
    ensures
        r == score_lookup(score_entry_views(scores@), name@),
{
    let ghost sv = score_entry_views(scores@);
    assert(sv.skip(0) =~= sv);
    let mut j: usize = 0;
    while j < scores.len()
        invariant
            j <= scores@.len(),
            sv == score_entry_views(scores@),
            score_lookup(sv, name@) == score_lookup(sv.skip(j as int), name@),
        decreases scores@.len() - j,
    {
        assert(sv.skip(j as int)[0] == (scores@[j as int].0@, scores@[j as int].1));
        if str_eq(scores[j].0.as_str(), name) {
            return scores[j].1;
        }
        assert(sv.skip(j as int).drop_first() =~= sv.skip(j + 1));
        j = j + 1;
    }
    0
}

/// The group for an objective: its tag with the highest score in the table,
/// the alphabetically first on a tie; none when it has no tags.
pub fn pick_group(o: &Objective, scores: &Vec<(String, u32)>) -> (g: Option<String>)
    ensures
        opt_string_view(g) == pick_of(o@.tags, |name: Seq<char>| score_lookup(score_entry_views(scores@), name) as int),
{
    let ghost f = |name: Seq<char>| score_lookup(score_entry_views(scores@), name) as int;
    let tags = o.tags();
    let ghost tv = o@.tags;
    if tags.len() == 0 {
        return None;
    }
    let mut best: Option<(String, u32)> = None;
    let mut i: usize = 0;
    while i < tags.len()
        invariant
            i <= tags.len(),
            tv == tag_views(tags@),
            tv.len() == tags@.len(),
            f == (|name: Seq<char>| score_lookup(score_entry_views(scores@), name) as int),
            match best {
                None => pick_upto(tv, f, i as nat) is None,
                Some((n, sc)) => pick_upto(tv, f, i as nat) == Some((n@, sc as int)),
            },
        decreases tags.len() - i,
    {
        assert(tv[i as int] == tags@[i as int]@);
        let name = tags[i].name();
        let score = lookup_score(scores, name);
        let take = match &best {
            None => true,
            Some((b_name, b_score)) => score > *b_score || (score == *b_score && str_less(name, b_name.as_str())),
        };
        if take {
            best = Some((String::from_str(name), score));
        }
        i = i + 1;
    }
    match best {
        Some((n, _)) => Some(n),
        None => None,
    }
}


proof fn lemma_score_lookup_at(sv: Seq<(Seq<char>, u32)>, j: int)
    requires
        0 <= j < sv.len(),
        entry_names(sv).no_duplicates(),
    ensures
        score_lookup(sv, sv[j].0) == sv[j].1,
    decreases j,
{
    if j > 0 {
        assert(entry_names(sv)[0] != entry_names(sv)[j]);
        let rest = sv.drop_first();
        assert(entry_names(rest) =~= entry_names(sv).drop_first());
        assert(entry_names(rest).no_duplicates()) by {
            assert forall|a: int, b: int| 0 <= a < entry_names(rest).len() && 0 <= b < entry_names(rest).len() && a != b
                implies entry_names(rest)[a] != entry_names(rest)[b] by {
                assert(entry_names(sv)[a + 1] != entry_names(sv)[b + 1]);
            }
        }
        assert(rest[j - 1] == sv[j]);
        lemma_score_lookup_at(rest, j - 1);
    }
}

/// One task per objective, in order: the objective's content as its name,
/// the given remaining time, the highest priority among its questions
/// (`Medium` without questions), and as group its tag with the highest
/// total score over all objectives, the alphabetically first on a tie.
pub fn objectives_to_gantt_tasks(objectives: &[Objective], remaining: &Vec<Days>) -> (tasks: Vec<GanttTask>)
    requires
        remaining@.len() == objectives@.len(),
        forall|i: int| 0 <= i < objectives@.len() ==> score_sum(#[trigger] objectives@[i]@.questions) <= u32::MAX,
        tag_scores_fit(objective_views_of(objectives@)),
    ensures
        tasks@.len() == objectives@.len(),
        forall|i: int|
            0 <= i < tasks@.len() ==> #[trigger] tasks@[i]@ == (TaskView {
                name: objectives@[i]@.content,
                days: remaining@[i],
                priority: max_priority(objectives@[i]@.questions),
                group: pick_of(
                    objectives@[i]@.tags,
                    |name: Seq<char>| tag_score(objective_views_of(objectives@), name) as int,
                ),
            }),
{
    let ghost ov = objective_views_of(objectives@);
    let ghost g = |name: Seq<char>| tag_score(ov, name) as int;
    let scores = tag_priority_score_sums(objectives);
    let ghost f = |name: Seq<char>| score_lookup(score_entry_views(scores@), name) as int;
    let mut tasks: Vec<GanttTask> = Vec::new();
    let mut i: usize = 0;
    while i < objectives.len()
        invariant
            i <= objectives@.len(),
            remaining@.len() == objectives@.len(),
            ov == objective_views_of(objectives@),
            ov.len() == objectives@.len(),
            g == (|name: Seq<char>| tag_score(ov, name) as int),
            f == (|name: Seq<char>| score_lookup(score_entry_views(scores@), name) as int),
            entry_names(score_entry_views(scores@)).no_duplicates(),
            forall|name: Seq<char>|
                #![trigger entry_names(score_entry_views(scores@)).contains(name)]
                entry_names(score_entry_views(scores@)).contains(name) <==> tagged_upto(ov, name, ov.len()),
            forall|j: int| 0 <= j < scores@.len() ==> #[trigger] scores@[j].1 == tag_score(ov, scores@[j].0@),
            tasks@.len() == i,
            forall|k: int|
                0 <= k < i ==> #[trigger] tasks@[k]@ == (TaskView {
                    name: objectives@[k]@.content,
                    days: remaining@[k],
                    priority: max_priority(objectives@[k]@.questions),
                    group: pick_of(objectives@[k]@.tags, g),
                }),
        decreases objectives@.len() - i,
    {
        let o = &objectives[i];
        assert(ov[i as int] == o@);
        let group = pick_group(o, &scores);
        proof {
            let tv = o@.tags;
            assert forall|t: int| 0 <= t < tv.len() implies f(#[trigger] tv[t]) == g(tv[t]) by {
                let name = tv[t];
                assert(ov[i as int].tags.contains(name));
                assert(tagged_upto(ov, name, ov.len()));
                let names = entry_names(score_entry_views(scores@));
                assert(names.contains(name));
                let j = choose|j: int| 0 <= j < names.len() && names[j] == name;
                assert(score_entry_views(scores@)[j] == (scores@[j].0@, scores@[j].1));
                lemma_score_lookup_at(score_entry_views(scores@), j);
            }
            lemma_pick_upto_agree(tv, f, g, tv.len());
        }
        let task = GanttTask::new(String::from_str(o.content()), remaining[i], objective_max_priority(o), group);
        tasks.push(task);
        i = i + 1;
    }
    tasks
}


/// One objective's worth of questions, ordered for the chart.
#[derive(Debug, Clone)]
pub struct ObjectiveSchedule {
    pub objective: String,
    pub met: bool,
    pub questions: Vec<ScheduledQuestion>,
}

#[derive(Debug, Clone)]
pub struct ScheduledQuestion {
    pub id: usize,
    pub content: String,
    pub priority: Priority,
    pub days: Days,
    pub answered: bool,
    pub prereq: Option<usize>,
    pub actions: Vec<ScheduledAction>,
}

#[derive(Debug, Clone)]
pub struct ScheduledAction {
    pub content: String,
    pub category: String,
    pub days: Days,
    pub completed: bool,
}

pub struct ScheduledActionView {
    pub content: Seq<char>,
    pub category: Seq<char>,
    pub days: Days,
    pub completed: bool,
}

pub struct ScheduledQuestionView {
    pub id: usize,
    pub content: Seq<char>,
    pub priority: Priority,
    pub days: Days,
    pub answered: bool,
    pub prereq: Option<usize>,
    pub actions: Seq<ScheduledActionView>,
}

pub struct ScheduleView {
    pub objective: Seq<char>,
    pub met: bool,
    pub questions: Seq<ScheduledQuestionView>,
}

pub open spec fn sched_action_views(s: Seq<ScheduledAction>) -> Seq<ScheduledActionView> {
    s.map_values(|a: ScheduledAction| a@)
}

pub open spec fn sched_question_views(s: Seq<ScheduledQuestion>) -> Seq<ScheduledQuestionView> {
    s.map_values(|q: ScheduledQuestion| q@)
}

impl View for ScheduledAction {
    type V = ScheduledActionView;

    open spec fn view(&self) -> ScheduledActionView {
        ScheduledActionView { content: self.content@, category: self.category@, days: self.days, completed: self.completed }
    }
}

impl View for ScheduledQuestion {
    type V = ScheduledQuestionView;

    open spec fn view(&self) -> ScheduledQuestionView {
        ScheduledQuestionView {
            id: self.id,
            content: self.content@,
            priority: self.priority,
            days: self.days,
            answered: self.answered,
            prereq: self.prereq,
            actions: sched_action_views(self.actions@),
        }
    }
}

impl View for ObjectiveSchedule {
    type V = ScheduleView;

    open spec fn view(&self) -> ScheduleView {
        ScheduleView {
            objective: self.objective@,
            met: self.met,
            questions: sched_question_views(self.questions@),
        }
    }
}

/// How an action appears in the schedule: its category by name.
pub open spec fn scheduled_action_of(a: ActionView) -> ScheduledActionView {
    ScheduledActionView { content: a.content, category: a.category.as_str_of(), days: a.required_time, completed: a.completed }
}

/// How a question appears in the schedule, with its total time `days`.
pub open spec fn scheduled_question_of(q: QuestionView, days: Days) -> ScheduledQuestionView {
    ScheduledQuestionView {
        id: q.id,
        content: q.content,
        priority: Priority::of_question(q.priority),
        days,
        answered: q.answered,
        prereq: q.prereq,
        actions: q.actions.map_values(|a: ActionView| scheduled_action_of(a)),
    }
}

/// An objective's schedule: its questions in chart order, question `i`
/// taking `question_days[i]` as its total time.
pub open spec fn schedule_of(o: ObjectiveView, question_days: Seq<Days>) -> ScheduleView {
    ScheduleView {
        objective: o.content,
        met: o.met,
        questions: gantt_order(o.questions).map_values(
            |i: usize| scheduled_question_of(o.questions[i as int], question_days[i as int]),
        ),
    }
}

fn schedule_question(q: &Question, days: Days) -> (s: ScheduledQuestion)
    ensures
        s@ == scheduled_question_of(q@, days),
{
    let actions = q.actions();
    let mut out: Vec<ScheduledAction> = Vec::new();
    let mut i: usize = 0;
    while i < actions.len()
        invariant
            i <= actions.len(),
            action_views(actions@) == q@.actions,
            out@.len() == i,
            forall|k: int| 0 <= k < i ==> #[trigger] out@[k]@ == scheduled_action_of(q@.actions[k]),
        decreases actions.len() - i,
    {
        assert(q@.actions[i as int] == actions@[i as int]@);
        let a = &actions[i];
        out.push(ScheduledAction {
            content: String::from_str(a.content()),
            category: String::from_str(a.category().as_str()),
            days: a.required_time(),
            completed: a.completed(),
        });
        i = i + 1;
    }
    let s = ScheduledQuestion {
        id: q.id(),
        content: String::from_str(q.content()),
        priority: Priority::from(q.priority()),
        days,
        answered: q.answered(),
        prereq: q.prereq(),
        actions: out,
    };
    assert(s@.actions =~= q@.actions.map_values(|a: ActionView| scheduled_action_of(a)));
    s
}

fn objective_to_schedule(o: &Objective, question_days: &Vec<Days>) -> (s: ObjectiveSchedule)
    requires
        question_days@.len() == o@.questions.len(),
    ensures
        s@ == schedule_of(o@, question_days@),
{
    let order = sort_questions_for_gantt(o);
    let qs = o.questions();
    let ghost qv = o@.questions;
    let mut out: Vec<ScheduledQuestion> = Vec::new();
    let mut k: usize = 0;
    while k < order.len()
        invariant
            k <= order@.len(),
            order@ == gantt_order(qv),
            distinct_below(order@, qv.len()),
            qv == question_views(qs@),
            qv.len() == qs@.len(),
            question_days@.len() == qv.len(),
            out@.len() == k,
            forall|t: int|
                0 <= t < k ==> #[trigger] out@[t]@ == scheduled_question_of(qv[order@[t] as int], question_days@[order@[t] as int]),
        decreases order@.len() - k,
    {
        let i = order[k];
        assert(i < qv.len());
        assert(qv[i as int] == qs@[i as int]@);
        out.push(schedule_question(&qs[i], question_days[i]));
        k = k + 1;
    }
    let s = ObjectiveSchedule { objective: String::from_str(o.content()), met: o.met(), questions: out };
    assert(s@.questions =~= gantt_order(qv).map_values(
        |i: usize| scheduled_question_of(qv[i as int], question_days@[i as int]),
    ));
    s
}

/// Each objective's schedule, in order; `question_days[i][j]` is the total
/// time of question `j` of objective `i`.
pub fn objectives_to_schedule(objectives: &[Objective], question_days: &Vec<Vec<Days>>) -> (s: Vec<ObjectiveSchedule>)
    requires
        question_days@.len() == objectives@.len(),
        forall|i: int| 0 <= i < objectives@.len() ==> (#[trigger] question_days@[i])@.len() == objectives@[i]@.questions.len(),
    ensures
        s@.len() == objectives@.len(),
        forall|i: int| 0 <= i < s@.len() ==> #[trigger] s@[i]@ == schedule_of(objectives@[i]@, question_days@[i]@),
{
    let mut out: Vec<ObjectiveSchedule> = Vec::new();
    let mut i: usize = 0;
    while i < objectives.len()
        invariant
            i <= objectives@.len(),
            question_days@.len() == objectives@.len(),
            forall|x: int| 0 <= x < objectives@.len() ==> (#[trigger] question_days@[x])@.len() == objectives@[x]@.questions.len(),
            out@.len() == i,
            forall|k: int| 0 <= k < i ==> #[trigger] out@[k]@ == schedule_of(objectives@[k]@, question_days@[k]@),
        decreases objectives@.len() - i,
    {
        assert(question_days@[i as int]@.len() == objectives@[i as int]@.questions.len());
        out.push(objective_to_schedule(&objectives[i], &question_days[i]));
        i = i + 1;
    }
    out
}

} // verus!
