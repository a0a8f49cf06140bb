//! The order in which an objective's questions appear on the chart, and
//! its laws: every question once, prerequisites first, sorted when no
//! question has a prerequisite.
use crate::priority::Priority;
use crate::questions::{lemma_position_of_id, position_by_id, position_of_id, question_views, Objective, Question, QuestionView};
use vstd::prelude::*;
use vstd::set_lib::*;

verus! {

/// The score of a question's priority.
pub open spec fn question_score(q: QuestionView) -> u8 {
    Priority::of_question(q.priority).score_of()
}

/// Whether question `a` is to be scheduled before question `b` when both
/// are free: a higher priority first; within a priority, one without a
/// prerequisite first; then the smaller id.
pub open spec fn schedules_before(qs: Seq<QuestionView>, a: int, b: int) -> bool {
    let (sa, sb) = (question_score(qs[a]), question_score(qs[b]));
    let (pa, pb) = (qs[a].prereq is Some, qs[b].prereq is Some);
    sa > sb || (sa == sb && ((!pa && pb) || (pa == pb && qs[a].id < qs[b].id)))
}

/// The first of the questions below `k` not yet in `order` that no other
/// such question is scheduled before.
pub open spec fn seed_upto(qs: Seq<QuestionView>, order: Seq<usize>, k: nat) -> Option<usize>
    decreases k,
{
    if k == 0 {
        None
    } else {
        let prev = seed_upto(qs, order, (k - 1) as nat);
        let i = (k - 1) as usize;
        if order.contains(i) {
            prev
        } else {
            match prev {
                None => Some(i),
                Some(b) => if schedules_before(qs, i as int, b as int) {
                    Some(i)
                } else {
                    Some(b)
                },
            }
        }
    }
}

/// The index of the question that the prerequisite of question `i` names.
pub open spec fn prereq_index(qs: Seq<QuestionView>, i: int) -> Option<usize> {
    match qs[i].prereq {
        None => None,
        Some(p) => match position_of_id(qs, p) {
            None => None,
            Some(j) => Some(j as usize),
        },
    }
}

/// Extends `chain` from question `cur` along prerequisites, stopping at a
/// question already in `order` or already in the chain.
pub open spec fn grow_chain(qs: Seq<QuestionView>, order: Seq<usize>, cur: usize, chain: Seq<usize>) -> Seq<usize>
    decreases qs.len() - chain.len(),
{
    if cur >= qs.len() || order.contains(cur) || chain.contains(cur) || chain.len() >= qs.len() {
        chain
    } else {
        match prereq_index(qs, cur as int) {
            None => chain.push(cur),
            Some(next) => grow_chain(qs, order, next, chain.push(cur)),
        }
    }
}

/// One round: the chain grown from the seed, placed root first.
pub open spec fn schedule_round(qs: Seq<QuestionView>, order: Seq<usize>) -> Seq<usize> {
    match seed_upto(qs, order, qs.len()) {
        None => order,
        Some(seed) => order + grow_chain(qs, order, seed, Seq::empty()).reverse(),
    }
}

/// Rounds repeated from `order` until every question is placed.
pub open spec fn schedule_from(qs: Seq<QuestionView>, order: Seq<usize>) -> Seq<usize>
    decreases qs.len() - order.len(),
{
    let next = schedule_round(qs, order);
    if next.len() <= order.len() || next.len() > qs.len() {
        next
    } else {
        schedule_from(qs, next)
    }
}

/// The order in which the questions of an objective are scheduled.
pub open spec fn gantt_order(qs: Seq<QuestionView>) -> Seq<usize> {
    schedule_from(qs, Seq::empty())
}

/// Indices below `n`, each at most once.
pub open spec fn distinct_below(s: Seq<usize>, n: nat) -> bool {
    &&& s.no_duplicates()
    &&& forall|i: int| 0 <= i < s.len() ==> s[i] < n
}

proof fn lemma_distinct_below_len(s: Seq<usize>, n: nat)
    requires
        distinct_below(s, n),
    ensures
        s.len() <= n,
{
    let t = s.map_values(|x: usize| x as int);
    assert(t.no_duplicates()) by {
        assert forall|i: int, j: int| 0 <= i < t.len() && 0 <= j < t.len() && i != j implies t[i] != t[j] by {
            assert(s[i] != s[j]);
        }
    }
    t.unique_seq_to_set();
    lemma_int_range(0, n as int);
    assert(t.to_set().subset_of(set_int_range(0, n as int))) by {
        assert forall|x: int| t.to_set().contains(x) implies set_int_range(0, n as int).contains(x) by {
            let i = choose|i: int| 0 <= i < t.len() && t[i] == x;
            assert(s[i] < n);
        }
    }
    lemma_len_subset(t.to_set(), set_int_range(0, n as int));
}

/// A sequence of distinct indices below `n` that has `n` elements holds every
/// index below `n`.
proof fn lemma_distinct_below_full(s: Seq<usize>, n: nat, x: usize)
    requires
        distinct_below(s, n),
        s.len() >= n,
        x < n,
    ensures
        s.contains(x),
{
    if !s.contains(x) {
        let t = s.push(x);
        assert(distinct_below(t, n)) by {
            assert forall|i: int, j: int| 0 <= i < t.len() && 0 <= j < t.len() && i != j implies t[i] != t[j] by {
                if i < s.len() && j < s.len() {
                    assert(s[i] != s[j]);
                } else if i < s.len() {
                    assert(t[j] == x);
                    assert(t[i] == s[i]);
                } else if j < s.len() {
                    assert(t[i] == x);
                    assert(t[j] == s[j]);
                }
            }
        }
        lemma_distinct_below_len(t, n);
    }
}


proof fn lemma_contains_all_len(s: Seq<usize>, n: nat)
    requires
        forall|x: usize| x < n ==> s.contains(x),
        n <= usize::MAX,
    ensures
        s.len() >= n,
{
    let t = s.map_values(|x: usize| x as int);
    lemma_int_range(0, n as int);
    assert(set_int_range(0, n as int).subset_of(t.to_set())) by {
        assert forall|x: int| set_int_range(0, n as int).contains(x) implies t.to_set().contains(x) by {
            assert(s.contains(x as usize));
            let i = choose|i: int| 0 <= i < s.len() && s[i] == x as usize;
            assert(t[i] == x);
        }
    }
    vstd::seq_lib::seq_to_set_is_finite(t);
    lemma_len_subset(set_int_range(0, n as int), t.to_set());
    t.lemma_cardinality_of_set();
}

proof fn lemma_seed_upto(qs: Seq<QuestionView>, order: Seq<usize>, k: nat)
    ensures
        seed_upto(qs, order, k) matches Some(i) ==> i < k && !order.contains(i),
        seed_upto(qs, order, k) is None ==> forall|x: usize| x < k ==> order.contains(x),
    decreases k,
{
    if k > 0 {
        lemma_seed_upto(qs, order, (k - 1) as nat);
    }
}

fn schedules_before_exec(qs: &[Question], a: usize, b: usize) -> (r: bool)
    requires
        a < qs@.len(),
        b < qs@.len(),
    ensures
        r == schedules_before(question_views(qs@), a as int, b as int),
{
    let ghost qv = question_views(qs@);
    assert(qv[a as int] == qs@[a as int]@);
    assert(qv[b as int] == qs@[b as int]@);
    let sa = Priority::from(qs[a].priority()).score();
    let sb = Priority::from(qs[b].priority()).score();
    let pa = qs[a].prereq().is_some();
    let pb = qs[b].prereq().is_some();
    sa > sb || (sa == sb && ((!pa && pb) || (pa == pb && qs[a].id() < qs[b].id())))
}

fn prereq_idx(qs: &[Question], i: usize) -> (r: Option<usize>)
    requires
        i < qs@.len(),
    ensures
        r == prereq_index(question_views(qs@), i as int),
        r matches Some(j) ==> j < qs@.len(),
{
    let ghost qv = question_views(qs@);
    assert(qv[i as int] == qs@[i as int]@);
    match qs[i].prereq() {
        None => None,
        Some(p) => {
            proof {
                lemma_position_of_id(qv, p);
            }
            position_by_id(qs, p)
        },
    }
}

fn contains_index(v: &Vec<usize>, x: usize) -> (b: bool)
    ensures
        b == v@.contains(x),
{
    let mut i: usize = 0;
    while i < v.len()
        invariant
            i <= v.len(),
            forall|j: int| 0 <= j < i ==> v@[j] != x,
        decreases v.len() - i,
    {
        if v[i] == x {
            return true;
        }
        i = i + 1;
    }
    false
}

/// The order in which an objective's questions appear on the chart: rounds
/// that each take the free question that is scheduled before every other
/// free one (higher priority, then no prerequisite, then smaller id, then
/// earlier position), follow its prerequisites back while they are free, and
/// place that chain root first.
pub fn sort_questions_for_gantt(o: &Objective) -> (order: Vec<usize>)
    ensures
        order@ == gantt_order(o@.questions),
        order@.len() == o@.questions.len(),
        distinct_below(order@, o@.questions.len()),
{
    let qs = o.questions();
    let ghost qv = o@.questions;
    let n = qs.len();
    let mut placed: Vec<bool> = Vec::new();
    let mut i: usize = 0;
    while i < n
        invariant
            i <= n,
            placed@.len() == i,
            forall|j: int| 0 <= j < i ==> !placed@[j],
        decreases n - i,
    {
        placed.push(false);
        i = i + 1;
    }
    let mut order: Vec<usize> = Vec::new();
    let mut done = false;
    while !done
        invariant
            n == qs@.len(),
            qv == question_views(qs@),
            qv.len() == n,
            placed@.len() == n,
            forall|j: int| 0 <= j < n ==> placed@[j] == order@.contains(j as usize),
            distinct_below(order@, n as nat),
            done ==> schedule_from(qv, order@) == order@,
            done ==> forall|x: usize| x < n ==> order@.contains(x),
            gantt_order(qv) == schedule_from(qv, order@),
        decreases n - order@.len(), if done { 0int } else { 1int },
    {
        proof {
            lemma_distinct_below_len(order@, n as nat);
        }
        let ghost order0 = order@;
        // Pick the seed.
        let mut seed: Option<usize> = None;
        let mut k: usize = 0;
        while k < n
            invariant
                k <= n,
                n == qs@.len(),
                qv == question_views(qs@),
                placed@.len() == n,
                order@ == order0,
                forall|j: int| 0 <= j < n ==> placed@[j] == order@.contains(j as usize),
                seed == seed_upto(qv, order0, k as nat),
                seed matches Some(b) ==> b < k,
            decreases n - k,
        {
            if !placed[k] {
                match seed {
                    None => {
                        seed = Some(k);
                    },
                    Some(b) => {
                        if schedules_before_exec(qs, k, b) {
                            seed = Some(k);
                        }
                    },
                }
            }
            k = k + 1;
        }
        match seed {
            None => {
                proof {
                    lemma_seed_upto(qv, order0, n as nat);
                    assert(schedule_round(qv, order0) == order0);
                }
                done = true;
            },
            Some(seed) => {
                proof {
                    lemma_seed_upto(qv, order0, n as nat);
                }
                // Follow prerequisites from the seed.
                let mut chain: Vec<usize> = Vec::new();
                let mut cur: Option<usize> = Some(seed);
                while cur.is_some()
                    invariant
                        n == qs@.len(),
                        qv == question_views(qs@),
                        placed@.len() == n,
                        order@ == order0,
                        forall|j: int| 0 <= j < n ==> placed@[j] == order@.contains(j as usize),
                        distinct_below(chain@, n as nat),
                        forall|j: int| 0 <= j < chain@.len() ==> !order0.contains(#[trigger] chain@[j]),
                        seed < n,
                        !order0.contains(seed),
                        chain@.len() == 0 ==> cur == Some(seed),
                        match cur {
                            Some(c) => c < n && grow_chain(qv, order0, seed, Seq::empty()) == grow_chain(qv, order0, c, chain@),
                            None => grow_chain(qv, order0, seed, Seq::empty()) == chain@,
                        },
                    decreases n - chain@.len(), if cur is Some { 1int } else { 0int },
                {
                    proof {
                        lemma_distinct_below_len(chain@, n as nat);
                    }
                    let idx = cur.unwrap();
                    if placed[idx] || contains_index(&chain, idx) {
                        cur = None;
                    } else {
                        proof {
                            if chain@.len() >= n {
                                lemma_distinct_below_full(chain@, n as nat, idx);
                            }
                        }
                        let ghost before = chain@;
                        chain.push(idx);
                        assert(distinct_below(chain@, n as nat)) by {
                            assert forall|a: int, b: int| 0 <= a < chain@.len() && 0 <= b < chain@.len() && a != b implies chain@[a] != chain@[b] by {
                                if a < before.len() && b < before.len() {
                                    assert(before[a] != before[b]);
                                } else if a < before.len() {
                                    assert(chain@[a] == before[a]);
                                } else if b < before.len() {
                                    assert(chain@[b] == before[b]);
                                }
                            }
                        }
                        cur = prereq_idx(qs, idx);
                        assert(chain@ == before.push(idx));
                    }
                }
                let ghost grown = chain@;
                // Place the chain root first.
                let mut j = chain.len();
                while j > 0
                    invariant
                        j <= chain@.len(),
                        chain@ == grown,
                        n == qs@.len(),
                        placed@.len() == n,
                        distinct_below(grown, n as nat),
                        forall|t: int| 0 <= t < grown.len() ==> !order0.contains(#[trigger] grown[t]),
                        order@ == order0 + grown.subrange(j as int, grown.len() as int).reverse(),
                        forall|t: int| 0 <= t < n ==> placed@[t] == order@.contains(t as usize),
                        distinct_below(order0, n as nat),
                    decreases j,
                {
                    j = j - 1;
                    let x = chain[j];
                    let ghost prev = order@;
                    order.push(x);
                    placed.set(x, true);
                    assert(grown.subrange(j as int, grown.len() as int).reverse() =~= grown.subrange(
                        (j + 1) as int,
                        grown.len() as int,
                    ).reverse().push(x));
                    assert forall|t: int| 0 <= t < n implies placed@[t] == order@.contains(t as usize) by {
                        if t == x as int {
                            assert(order@[order@.len() - 1] == x);
                        } else {
                            assert(order@ == prev.push(x));
                            if prev.contains(t as usize) {
                                let w = choose|w: int| 0 <= w < prev.len() && prev[w] == t as usize;
                                assert(order@[w] == t as usize);
                            }
                            if order@.contains(t as usize) {
                                let w = choose|w: int| 0 <= w < order@.len() && order@[w] == t as usize;
                                assert(prev[w] == t as usize);
                            }
                        }
                    }
                }
                assert(grown.subrange(0, grown.len() as int) =~= grown);
                assert(order@ == schedule_round(qv, order0));
                assert(distinct_below(order@, n as nat)) by {
                    let rev = grown.reverse();
                    assert(order@ == order0 + rev);
                    assert forall|a: int, b: int| 0 <= a < order@.len() && 0 <= b < order@.len() && a != b implies order@[a] != order@[b] by {
                        if a < order0.len() && b < order0.len() {
                            assert(order0[a] != order0[b]);
                        } else if a >= order0.len() && b >= order0.len() {
                            assert(rev[a - order0.len()] == grown[grown.len() - 1 - (a - order0.len())]);
                            assert(rev[b - order0.len()] == grown[grown.len() - 1 - (b - order0.len())]);
                        } else if a < order0.len() {
                            let g = grown.len() - 1 - (b - order0.len());
                            assert(order@[b] == grown[g]);
                            assert(!order0.contains(grown[g]));
                        } else {
                            let g = grown.len() - 1 - (a - order0.len());
                            assert(order@[a] == grown[g]);
                            assert(!order0.contains(grown[g]));
                        }
                    }
                    assert forall|t: int| 0 <= t < order@.len() implies order@[t] < n by {
                        if t >= order0.len() {
                            assert(rev[t - order0.len()] == grown[grown.len() - 1 - (t - order0.len())]);
                        }
                    }
                }
                proof {
                    lemma_distinct_below_len(order@, n as nat);
                    assert(grown.len() > 0);
                }
            },
        }
    }
    proof {
        lemma_distinct_below_len(order@, n as nat);
        lemma_contains_all_len(order@, n as nat);
    }
    order
}

// ---------------------------------------------------------------------------
// Prerequisites come first.

/// Following prerequisites from the question at `cursor`, each resolved to
/// the question it names, reaches the question at `target` within `steps`
/// links.
pub open spec fn prereq_walk_reaches(qs: Seq<QuestionView>, target: int, cursor: int, steps: nat) -> bool
    decreases steps,
{
    steps > 0 && match prereq_index(qs, cursor) {
        None => false,
        Some(j) => j == target || prereq_walk_reaches(qs, target, j as int, (steps - 1) as nat),
    }
}

/// The question at `i` lies on a cycle of prerequisites: following them
/// from it comes back to it.
pub open spec fn on_prereq_cycle(qs: Seq<QuestionView>, i: int) -> bool {
    prereq_walk_reaches(qs, i, i, qs.len())
}

/// In `order`, each placed question that has a prerequisite and lies on no
/// cycle of prerequisites has its prerequisite placed earlier.
pub open spec fn prereqs_first(qs: Seq<QuestionView>, order: Seq<usize>) -> bool {
    forall|b: int|
        0 <= b < order.len() && prereq_index(qs, #[trigger] order[b] as int) is Some && !on_prereq_cycle(qs, order[b] as int)
            ==> exists|a: int| 0 <= a < b && order[a] == prereq_index(qs, order[b] as int)->0
}

/// Each element's prerequisite is the element after it.
pub open spec fn is_prereq_path(qs: Seq<QuestionView>, c: Seq<usize>) -> bool {
    forall|m: int| 0 <= m < c.len() - 1 ==> prereq_index(qs, #[trigger] c[m] as int) == Some(c[m + 1])
}

/// Why a grown chain ends where it does: its last question has no
/// prerequisite, or the prerequisite is placed already, is in the chain, or
/// the chain holds as many questions as there are.
pub open spec fn chain_end_ok(qs: Seq<QuestionView>, order: Seq<usize>, r: Seq<usize>) -> bool {
    r.len() > 0 ==> match prereq_index(qs, r.last() as int) {
        None => true,
        Some(nx) => order.contains(nx) || r.contains(nx) || r.len() >= qs.len(),
    }
}

proof fn lemma_prereq_index_in_range(qs: Seq<QuestionView>, i: int)
    requires
        qs.len() <= usize::MAX,
    ensures
        prereq_index(qs, i) matches Some(j) ==> j < qs.len(),
{
    if let Some(p) = qs[i].prereq {
        lemma_position_of_id(qs, p);
    }
}

proof fn lemma_grow_chain(qs: Seq<QuestionView>, order: Seq<usize>, cur: usize, chain: Seq<usize>)
    requires
        qs.len() <= usize::MAX,
        distinct_below(chain, qs.len()),
        forall|t: int| 0 <= t < chain.len() ==> !order.contains(#[trigger] chain[t]),
        is_prereq_path(qs, chain),
        chain.len() > 0 ==> prereq_index(qs, chain.last() as int) == Some(cur),
        chain.len() == 0 ==> cur < qs.len() && !order.contains(cur),
    ensures
        grow_chain(qs, order, cur, chain).len() > 0,
        grow_chain(qs, order, cur, chain)[0] == if chain.len() > 0 { chain[0] } else { cur },
        distinct_below(grow_chain(qs, order, cur, chain), qs.len()),
        forall|t: int|
            0 <= t < grow_chain(qs, order, cur, chain).len() ==> !order.contains(#[trigger] grow_chain(qs, order, cur, chain)[t]),
        is_prereq_path(qs, grow_chain(qs, order, cur, chain)),
        chain_end_ok(qs, order, grow_chain(qs, order, cur, chain)),
    decreases qs.len() - chain.len(),
{
    if chain.len() > 0 {
        lemma_prereq_index_in_range(qs, chain.last() as int);
    }
    if cur >= qs.len() || order.contains(cur) || chain.contains(cur) || chain.len() >= qs.len() {
    } else {
        let next_chain = chain.push(cur);
        assert(distinct_below(next_chain, qs.len())) by {
            assert forall|a: int, b: int| 0 <= a < next_chain.len() && 0 <= b < next_chain.len() && a != b implies next_chain[a]
                != next_chain[b] by {
                if a < chain.len() && b < chain.len() {
                    assert(chain[a] != chain[b]);
                } else if a < chain.len() {
                    assert(chain.contains(next_chain[a]));
                } else {
                    assert(chain.contains(next_chain[b]));
                }
            }
        }
        assert forall|t: int| 0 <= t < next_chain.len() implies !order.contains(#[trigger] next_chain[t]) by {
            if t < chain.len() {
                assert(next_chain[t] == chain[t]);
            }
        }
        assert(is_prereq_path(qs, next_chain)) by {
            assert forall|m: int| 0 <= m < next_chain.len() - 1 implies prereq_index(qs, #[trigger] next_chain[m] as int)
                == Some(next_chain[m + 1]) by {
                assert(next_chain[m] == chain[m]);
                if m < chain.len() - 1 {
                    assert(next_chain[m + 1] == chain[m + 1]);
                }
            }
        }
        match prereq_index(qs, cur as int) {
            None => {},
            Some(next) => {
                lemma_grow_chain(qs, order, next, next_chain);
            },
        }
    }
}

/// A prerequisite path of at most `steps` links from its first question
/// reaches its last one.
proof fn lemma_walk_along_path(qs: Seq<QuestionView>, target: int, path: Seq<usize>, steps: nat)
    requires
        path.len() >= 2,
        is_prereq_path(qs, path),
        path.last() == target,
        path.len() - 1 <= steps,
    ensures
        prereq_walk_reaches(qs, target, path[0] as int, steps),
    decreases path.len(),
{
    assert(prereq_index(qs, path[0] as int) == Some(path[1]));
    if path[1] as int != target {
        let rest = path.drop_first();
        if path.len() == 2 {
            assert(path.last() == path[1]);
        } else {
            assert forall|m: int| 0 <= m < rest.len() - 1 implies prereq_index(qs, #[trigger] rest[m] as int) == Some(rest[m + 1]) by {
                assert(rest[m] == path[m + 1]);
                assert(prereq_index(qs, path[m + 1] as int) == Some(path[m + 2]));
            }
            lemma_walk_along_path(qs, target, rest, (steps - 1) as nat);
        }
    }
}

/// A grown chain whose last question's prerequisite leads back into the
/// chain puts that question on a cycle.
proof fn lemma_chain_cycle_returns(qs: Seq<QuestionView>, r: Seq<usize>, t: int)
    requires
        qs.len() <= usize::MAX,
        distinct_below(r, qs.len()),
        is_prereq_path(qs, r),
        0 <= t < r.len(),
        prereq_index(qs, r.last() as int) == Some(r[t]),
    ensures
        on_prereq_cycle(qs, r.last() as int),
{
    let k = r.len() - 1;
    let path = seq![r[k]] + r.subrange(t, r.len() as int);
    assert(is_prereq_path(qs, path)) by {
        assert forall|m: int| 0 <= m < path.len() - 1 implies prereq_index(qs, #[trigger] path[m] as int) == Some(path[m + 1]) by {
            if m == 0 {
                assert(path[0] == r[k]);
                assert(path[1] == r[t]);
            } else {
                assert(path[m] == r[t + m - 1]);
                assert(path[m + 1] == r[t + m]);
            }
        }
    }
    assert(path.last() == r[k]);
    lemma_distinct_below_len(r, qs.len());
    lemma_walk_along_path(qs, r[k] as int, path, qs.len());
}

proof fn lemma_round_distinct(qs: Seq<QuestionView>, order: Seq<usize>)
    requires
        qs.len() <= usize::MAX,
        distinct_below(order, qs.len()),
    ensures
        distinct_below(schedule_round(qs, order), qs.len()),
{
    lemma_seed_upto(qs, order, qs.len());
    if let Some(seed) = seed_upto(qs, order, qs.len()) {
        lemma_grow_chain(qs, order, seed, Seq::empty());
        let r = grow_chain(qs, order, seed, Seq::empty());
        let next = order + r.reverse();
        let k = r.len() - 1;
        assert forall|a: int, b: int| 0 <= a < next.len() && 0 <= b < next.len() && a != b implies next[a] != next[b] by {
            if a < order.len() && b < order.len() {
                assert(order[a] != order[b]);
            } else if a >= order.len() && b >= order.len() {
                assert(next[a] == r[k - (a - order.len())]);
                assert(next[b] == r[k - (b - order.len())]);
            } else if a < order.len() {
                assert(next[b] == r[k - (b - order.len())]);
                assert(!order.contains(r[k - (b - order.len())]));
            } else {
                assert(next[a] == r[k - (a - order.len())]);
                assert(!order.contains(r[k - (a - order.len())]));
            }
        }
        assert forall|t: int| 0 <= t < next.len() implies next[t] < qs.len() by {
            if t >= order.len() {
                assert(next[t] == r[k - (t - order.len())]);
            }
        }
    }
}

proof fn lemma_round_keeps_prereqs_first(qs: Seq<QuestionView>, order: Seq<usize>)
    requires
        qs.len() <= usize::MAX,
        distinct_below(order, qs.len()),
        prereqs_first(qs, order),
    ensures
        distinct_below(schedule_round(qs, order), qs.len()),
        prereqs_first(qs, schedule_round(qs, order)),
        schedule_round(qs, order).len() >= order.len(),
        schedule_round(qs, order).len() == order.len() ==> forall|x: usize| x < qs.len() ==> order.contains(x),
{
    lemma_seed_upto(qs, order, qs.len());
    match seed_upto(qs, order, qs.len()) {
        None => {},
        Some(seed) => {
            lemma_grow_chain(qs, order, seed, Seq::empty());
            let r = grow_chain(qs, order, seed, Seq::empty());
            let rev = r.reverse();
            let next = order + rev;
            let k = r.len() - 1;
            lemma_round_distinct(qs, order);
            assert forall|b: int|
                0 <= b < next.len() && prereq_index(qs, #[trigger] next[b] as int) is Some && !on_prereq_cycle(qs, next[b] as int)
                implies exists|a: int| 0 <= a < b && next[a] == prereq_index(qs, next[b] as int)->0 by {
                if b < order.len() {
                    assert(next[b] == order[b]);
                    let a = choose|a: int| 0 <= a < b && order[a] == prereq_index(qs, order[b] as int)->0;
                    assert(next[a] == order[a]);
                } else {
                    let m = k - (b - order.len());
                    assert(next[b] == r[m]);
                    if m < k {
                        assert(prereq_index(qs, r[m] as int) == Some(r[m + 1]));
                        assert(next[b - 1] == r[m + 1]);
                    } else {
                        assert(r.last() == r[k]);
                        let nx = prereq_index(qs, r[k] as int)->0;
                        if r.len() >= qs.len() && !r.contains(nx) {
                            lemma_prereq_index_in_range(qs, r[k] as int);
                            lemma_distinct_below_full(r, qs.len(), nx);
                        }
                        if r.contains(nx) {
                            let t = choose|t: int| 0 <= t < r.len() && r[t] == nx;
                            lemma_chain_cycle_returns(qs, r, t);
                        }
                        assert(order.contains(nx));
                        let a = choose|a: int| 0 <= a < order.len() && order[a] == nx;
                        assert(next[a] == order[a]);
                    }
                }
            }
        },
    }
}

proof fn lemma_schedule_from_prereqs_first(qs: Seq<QuestionView>, order: Seq<usize>)
    requires
        qs.len() <= usize::MAX,
        distinct_below(order, qs.len()),
        prereqs_first(qs, order),
    ensures
        prereqs_first(qs, schedule_from(qs, order)),
        distinct_below(schedule_from(qs, order), qs.len()),
        forall|x: usize| x < qs.len() ==> schedule_from(qs, order).contains(x),
    decreases qs.len() - order.len(),
{
    lemma_distinct_below_len(order, qs.len());
    lemma_round_keeps_prereqs_first(qs, order);
    let next = schedule_round(qs, order);
    lemma_distinct_below_len(next, qs.len());
    if next.len() <= order.len() || next.len() > qs.len() {
        assert forall|x: usize| x < qs.len() implies next.contains(x) by {
            lemma_seed_upto(qs, order, qs.len());
            if seed_upto(qs, order, qs.len()) is Some {
                let seed = seed_upto(qs, order, qs.len())->0;
                lemma_grow_chain(qs, order, seed, Seq::empty());
            }
        }
    } else {
        lemma_schedule_from_prereqs_first(qs, next);
    }
}

/// The chart order places every question once, and a question's
/// prerequisite before it unless the question lies on a cycle of
/// prerequisites; so with no cycle every prerequisite comes first.
pub proof fn gantt_order_puts_prereqs_first(qs: Seq<QuestionView>)
    requires
        qs.len() <= usize::MAX,
    ensures
        distinct_below(gantt_order(qs), qs.len()),
        forall|x: usize| x < qs.len() ==> gantt_order(qs).contains(x),
        prereqs_first(qs, gantt_order(qs)),
{
    assert(distinct_below(Seq::<usize>::empty(), qs.len()));
    lemma_schedule_from_prereqs_first(qs, Seq::empty());
}

// ---------------------------------------------------------------------------
// Without prerequisites the order is sorted.

/// No question names a prerequisite.
pub open spec fn no_prereqs(qs: Seq<QuestionView>) -> bool {
    forall|i: int| 0 <= i < qs.len() ==> (#[trigger] qs[i]).prereq is None
}

/// The full order in which free questions are chosen: `schedules_before`
/// (higher priority, then no prerequisite, then smaller id), and on a tie
/// the earlier position.
pub open spec fn chosen_before(qs: Seq<QuestionView>, a: int, b: int) -> bool {
    schedules_before(qs, a, b) || (!schedules_before(qs, b, a) && a < b)
}

/// Each question in `order` is chosen before every later one.
pub open spec fn sorted_for_schedule(qs: Seq<QuestionView>, order: Seq<usize>) -> bool {
    forall|a: int, b: int| 0 <= a < b < order.len() ==> chosen_before(qs, #[trigger] order[a] as int, #[trigger] order[b] as int)
}

proof fn lemma_schedules_before_order(qs: Seq<QuestionView>, x: int, y: int, z: int)
    ensures
        !schedules_before(qs, x, x),
        schedules_before(qs, x, y) && schedules_before(qs, y, z) ==> schedules_before(qs, x, z),
        schedules_before(qs, x, y) ==> !schedules_before(qs, y, x),
        schedules_before(qs, x, y) && !schedules_before(qs, y, z) && !schedules_before(qs, z, y) ==> schedules_before(qs, x, z),
{
}

/// The seed is chosen before every other free question below `k`.
proof fn lemma_seed_best(qs: Seq<QuestionView>, order: Seq<usize>, k: nat)
    requires
        k <= usize::MAX + 1,
    ensures
        seed_upto(qs, order, k) matches Some(s) ==> forall|x: usize|
            #![trigger chosen_before(qs, s as int, x as int)]
            x < k && !order.contains(x) && x != s ==> chosen_before(qs, s as int, x as int),
    decreases k,
{
    if k > 0 {
        lemma_seed_best(qs, order, (k - 1) as nat);
        let i = (k - 1) as usize;
        lemma_seed_upto(qs, order, (k - 1) as nat);
        let prev = seed_upto(qs, order, (k - 1) as nat);
        if let Some(s) = seed_upto(qs, order, k) {
            assert forall|x: usize| x < k && !order.contains(x) && x != s implies chosen_before(qs, s as int, x as int) by {
                if x < k - 1 {
                    match prev {
                        None => {
                            assert(order.contains(x));
                        },
                        Some(b) => {
                            lemma_schedules_before_order(qs, i as int, b as int, x as int);
                            lemma_schedules_before_order(qs, x as int, b as int, i as int);
                            if x != b {
                                assert(chosen_before(qs, b as int, x as int));
                            }
                        },
                    }
                } else {
                    assert(x == i);
                    if let Some(b) = prev {
                        assert(s == b);
                    }
                }
            }
        }
    }
}

/// Every question placed so far is chosen before every free question.
pub open spec fn placed_first(qs: Seq<QuestionView>, order: Seq<usize>) -> bool {
    forall|a: int, x: usize|
        #![trigger chosen_before(qs, order[a] as int, x as int)]
        0 <= a < order.len() && x < qs.len() && !order.contains(x) ==> chosen_before(qs, order[a] as int, x as int)
}

proof fn lemma_sorted_schedule_from(qs: Seq<QuestionView>, order: Seq<usize>)
    requires
        qs.len() <= usize::MAX,
        no_prereqs(qs),
        distinct_below(order, qs.len()),
        sorted_for_schedule(qs, order),
        placed_first(qs, order),
    ensures
        sorted_for_schedule(qs, schedule_from(qs, order)),
    decreases qs.len() - order.len(),
{
    lemma_distinct_below_len(order, qs.len());
    assert(prereqs_first(qs, order)) by {
        assert forall|b: int| 0 <= b < order.len() implies prereq_index(qs, #[trigger] order[b] as int) is None by {
            assert(qs[order[b] as int].prereq is None);
        }
    }
    lemma_round_keeps_prereqs_first(qs, order);
    let next = schedule_round(qs, order);
    lemma_seed_upto(qs, order, qs.len());
    lemma_seed_best(qs, order, qs.len());
    if let Some(seed) = seed_upto(qs, order, qs.len()) {
        assert(prereq_index(qs, seed as int) is None);
        assert(grow_chain(qs, order, seed, Seq::empty()) =~= seq![seed]);
        assert(next =~= order.push(seed));
        assert(sorted_for_schedule(qs, next)) by {
            assert forall|a: int, b: int| 0 <= a < b < next.len() implies chosen_before(qs, #[trigger] next[a] as int, #[trigger] next[b] as int) by {
                assert(next[a] == order[a]);
                if b < order.len() {
                    assert(next[b] == order[b]);
                }
            }
        }
        assert(placed_first(qs, next)) by {
            assert forall|a: int, x: usize|
                #![trigger chosen_before(qs, next[a] as int, x as int)]
                0 <= a < next.len() && x < qs.len() && !next.contains(x) implies chosen_before(qs, next[a] as int, x as int) by {
                assert(!order.contains(x)) by {
                    if order.contains(x) {
                        let w = choose|w: int| 0 <= w < order.len() && order[w] == x;
                        assert(next[w] == x);
                    }
                }
                assert(x != seed) by {
                    assert(next[order.len() as int] == seed);
                }
                if a < order.len() {
                    assert(next[a] == order[a]);
                }
            }
        }
    }
    lemma_distinct_below_len(next, qs.len());
    if next.len() <= order.len() || next.len() > qs.len() {
    } else {
        lemma_sorted_schedule_from(qs, next);
    }
}

/// When no question names a prerequisite, the chart order is the order of
/// choice: higher priority first, then smaller id, then earlier position.
pub proof fn gantt_order_sorted_without_prereqs(qs: Seq<QuestionView>)
    requires
        qs.len() <= usize::MAX,
        no_prereqs(qs),
    ensures
        sorted_for_schedule(qs, gantt_order(qs)),
{
    assert(distinct_below(Seq::<usize>::empty(), qs.len()));
    lemma_sorted_schedule_from(qs, Seq::empty());
}

// ---------------------------------------------------------------------------
// Each round of the chart order.

/// One round of the chart order, from the questions placed so far.  When
/// every question is placed the round adds nothing.  Otherwise it picks the
/// free question that is chosen before every other free one (so of the
/// highest priority, and among those of that priority one without a
/// prerequisite if there is one), and appends its chain of free
/// prerequisites root first, ending with the question itself: each question
/// of the chain comes immediately after its prerequisite, and the chain's
/// root has no prerequisite, has one placed in an earlier round, or lies on
/// a cycle of prerequisites.
pub proof fn schedule_round_places_best_chain(qs: Seq<QuestionView>, order: Seq<usize>)
    requires
        qs.len() <= usize::MAX,
        distinct_below(order, qs.len()),
    ensures
        seed_upto(qs, order, qs.len()) is None <==> forall|x: usize| x < qs.len() ==> order.contains(x),
        seed_upto(qs, order, qs.len()) is None ==> schedule_round(qs, order) == order,
        seed_upto(qs, order, qs.len()) matches Some(seed) ==> {
            let round = schedule_round(qs, order);
            let block = round.subrange(order.len() as int, round.len() as int);
            &&& round.len() > order.len()
            &&& round.subrange(0, order.len() as int) == order
            &&& distinct_below(round, qs.len())
            &&& seed < qs.len() && !order.contains(seed)
            &&& block.last() == seed
            &&& forall|x: usize|
                #![trigger chosen_before(qs, seed as int, x as int)]
                x < qs.len() && !order.contains(x) && x != seed ==> chosen_before(qs, seed as int, x as int)
            &&& forall|x: usize|
                #![trigger qs[x as int]]
                x < qs.len() && !order.contains(x) ==> question_score(qs[x as int]) <= question_score(qs[seed as int])
            &&& forall|x: usize|
                #![trigger qs[x as int]]
                x < qs.len() && !order.contains(x) && question_score(qs[x as int]) == question_score(qs[seed as int])
                    && qs[x as int].prereq is None ==> qs[seed as int].prereq is None
            &&& forall|t: int| 0 <= t < block.len() ==> !order.contains(#[trigger] block[t])
            &&& forall|m: int| 0 < m < block.len() ==> prereq_index(qs, #[trigger] block[m] as int) == Some(block[m - 1])
            &&& prereq_index(qs, block[0] as int) matches Some(j) ==> order.contains(j) || on_prereq_cycle(qs, block[0] as int)
        },
{
    lemma_seed_upto(qs, order, qs.len());
    lemma_seed_best(qs, order, qs.len());
    lemma_round_keeps_prereqs_first_shape(qs, order);
    if let Some(seed) = seed_upto(qs, order, qs.len()) {
        assert forall|x: usize|
            #![trigger qs[x as int]]
            x < qs.len() && !order.contains(x) implies question_score(qs[x as int]) <= question_score(qs[seed as int])
            && (question_score(qs[x as int]) == question_score(qs[seed as int]) && qs[x as int].prereq is None
                ==> qs[seed as int].prereq is None) by {
            if x != seed {
                assert(chosen_before(qs, seed as int, x as int));
            }
        }
    }
}

proof fn lemma_round_keeps_prereqs_first_shape(qs: Seq<QuestionView>, order: Seq<usize>)
    requires
        qs.len() <= usize::MAX,
        distinct_below(order, qs.len()),
    ensures
        seed_upto(qs, order, qs.len()) matches Some(seed) ==> {
            let round = schedule_round(qs, order);
            let block = round.subrange(order.len() as int, round.len() as int);
            &&& round.len() > order.len()
            &&& round.subrange(0, order.len() as int) == order
            &&& distinct_below(round, qs.len())
            &&& block.last() == seed
            &&& forall|t: int| 0 <= t < block.len() ==> !order.contains(#[trigger] block[t])
            &&& forall|m: int| 0 < m < block.len() ==> prereq_index(qs, #[trigger] block[m] as int) == Some(block[m - 1])
            &&& prereq_index(qs, block[0] as int) matches Some(j) ==> order.contains(j) || on_prereq_cycle(qs, block[0] as int)
        },
{
    lemma_seed_upto(qs, order, qs.len());
    if let Some(seed) = seed_upto(qs, order, qs.len()) {
        lemma_grow_chain(qs, order, seed, Seq::empty());
        let r = grow_chain(qs, order, seed, Seq::empty());
        let round = schedule_round(qs, order);
        let k = r.len() - 1;
        assert(round == order + r.reverse());
        let block = round.subrange(order.len() as int, round.len() as int);
        assert(block =~= r.reverse());
        assert(round.subrange(0, order.len() as int) =~= order);
        assert(block.last() == r[0]);
        assert forall|t: int| 0 <= t < block.len() implies !order.contains(#[trigger] block[t]) by {
            assert(block[t] == r[k - t]);
        }
        assert forall|m: int| 0 < m < block.len() implies prereq_index(qs, #[trigger] block[m] as int) == Some(block[m - 1]) by {
            assert(block[m] == r[k - m]);
            assert(block[m - 1] == r[k - m + 1]);
        }
        assert(block[0] == r.last());
        let first = r.last();
        if let Some(j) = prereq_index(qs, first as int) {
            if !order.contains(j) {
                if r.len() >= qs.len() && !r.contains(j) {
                    lemma_prereq_index_in_range(qs, first as int);
                    lemma_distinct_below_full(r, qs.len(), j);
                }
                let t = choose|t: int| 0 <= t < r.len() && r[t] == j;
                lemma_chain_cycle_returns(qs, r, t);
            }
        }
        lemma_round_distinct(qs, order);
    }
}

} // verus!
