//! The application state: an ordered list of objectives, the edits on it,
//! and the validation of stored state against the model's rules.
use crate::questions::{
    action_views, incomplete_count, lemma_position_of_id, position_of_id, question_views, tag_views, unanswered_count, ActionView,
    position_by_id, Objective, ObjectiveError, Question, QuestionPriority, Tag, ObjectiveView, QuestionError, QuestionView, question_pushed, tag_added, tag_removed,
};
use crate::days::Days;
use crate::text::{debug_quoted, debug_str, decimal, push_decimal, push_str, str_eq};
use crate::writer::gantt::{GanttTask, TaskView};
use crate::writer::{max_priority, objective_views_of, objectives_to_gantt_tasks, pick_of, score_sum, tag_score, tag_scores_fit};
use vstd::prelude::*;

verus! {

/// An operation on the application named an objective that is not there.
#[derive(Debug, PartialEq, Eq)]
pub enum AppError {
    NotFound,
    Question(QuestionError),
    Objective(ObjectiveError),
}

/// A way in which stored state breaks the rules that the operations keep.
#[derive(Debug, PartialEq)]
pub enum ValidationIssue {
    NegativeRequiredTime { obj_idx: usize, q_idx: usize, action_idx: usize },
    AnsweredQuestionWithIncompleteActions { obj_idx: usize, q_idx: usize, remaining: usize },
    MetObjectiveWithUnansweredQuestions { obj_idx: usize, remaining: usize },
    DuplicateTag { obj_idx: usize, name: String },
    DuplicateQuestionId { obj_idx: usize, id: usize },
    UnknownPrereq { obj_idx: usize, q_idx: usize, prereq_id: usize },
    SelfPrereq { obj_idx: usize, q_idx: usize },
    PrereqCycle { obj_idx: usize, q_idx: usize },
}

impl AppError {
    pub open spec fn message_of(self) -> Seq<char> {
        match self {
            AppError::NotFound => "objective or question not found"@,
            AppError::Question(e) => e.message_of(),
            AppError::Objective(e) => e.message_of(),
        }
    }

    /// The message that describes the error.
    pub fn to_string(&self) -> (s: String)
        ensures
            s@ == self.message_of(),
    {
        match self {
            AppError::NotFound => String::from_str("objective or question not found"),
            AppError::Question(e) => e.to_string(),
            AppError::Objective(e) => e.to_string(),
        }
    }
}

/// The abstract value of a validation issue.
pub enum IssueView {
    NegativeRequiredTime { obj_idx: usize, q_idx: usize, action_idx: usize },
    AnsweredQuestionWithIncompleteActions { obj_idx: usize, q_idx: usize, remaining: usize },
    MetObjectiveWithUnansweredQuestions { obj_idx: usize, remaining: usize },
    DuplicateTag { obj_idx: usize, name: Seq<char> },
    DuplicateQuestionId { obj_idx: usize, id: usize },
    UnknownPrereq { obj_idx: usize, q_idx: usize, prereq_id: usize },
    SelfPrereq { obj_idx: usize, q_idx: usize },
    PrereqCycle { obj_idx: usize, q_idx: usize },
}

impl View for ValidationIssue {
    type V = IssueView;

    open spec fn view(&self) -> IssueView {
        match self {
            ValidationIssue::NegativeRequiredTime { obj_idx, q_idx, action_idx } =>
                IssueView::NegativeRequiredTime { obj_idx: *obj_idx, q_idx: *q_idx, action_idx: *action_idx },
            ValidationIssue::AnsweredQuestionWithIncompleteActions { obj_idx, q_idx, remaining } =>
                IssueView::AnsweredQuestionWithIncompleteActions {
                    obj_idx: *obj_idx,
                    q_idx: *q_idx,
                    remaining: *remaining,
                },
            ValidationIssue::MetObjectiveWithUnansweredQuestions { obj_idx, remaining } =>
                IssueView::MetObjectiveWithUnansweredQuestions { obj_idx: *obj_idx, remaining: *remaining },
            ValidationIssue::DuplicateTag { obj_idx, name } =>
                IssueView::DuplicateTag { obj_idx: *obj_idx, name: name@ },
            ValidationIssue::DuplicateQuestionId { obj_idx, id } =>
                IssueView::DuplicateQuestionId { obj_idx: *obj_idx, id: *id },
            ValidationIssue::UnknownPrereq { obj_idx, q_idx, prereq_id } =>
                IssueView::UnknownPrereq { obj_idx: *obj_idx, q_idx: *q_idx, prereq_id: *prereq_id },
            ValidationIssue::SelfPrereq { obj_idx, q_idx } =>
                IssueView::SelfPrereq { obj_idx: *obj_idx, q_idx: *q_idx },
            ValidationIssue::PrereqCycle { obj_idx, q_idx } =>
                IssueView::PrereqCycle { obj_idx: *obj_idx, q_idx: *q_idx },
        }
    }
}

impl IssueView {
    /// The message that describes the issue.
    pub open spec fn message_of(self) -> Seq<char> {
        match self {
            IssueView::NegativeRequiredTime { obj_idx, q_idx, action_idx } => "objective "@ + decimal(obj_idx as nat)
                + " question "@ + decimal(q_idx as nat) + " action "@ + decimal(action_idx as nat)
                + ": required_time is negative"@,
            IssueView::AnsweredQuestionWithIncompleteActions { obj_idx, q_idx, remaining } => "objective "@ + decimal(
                obj_idx as nat,
            ) + " question "@ + decimal(q_idx as nat) + " answered but "@ + decimal(remaining as nat)
                + " action(s) incomplete"@,
            IssueView::MetObjectiveWithUnansweredQuestions { obj_idx, remaining } => "objective "@ + decimal(
                obj_idx as nat,
            ) + " met but "@ + decimal(remaining as nat) + " question(s) unanswered"@,
            IssueView::DuplicateTag { obj_idx, name } => "objective "@ + decimal(obj_idx as nat)
                + " has duplicate tag "@ + debug_quoted(name),
            IssueView::DuplicateQuestionId { obj_idx, id } => "objective "@ + decimal(obj_idx as nat)
                + " has duplicate question id "@ + decimal(id as nat),
            IssueView::UnknownPrereq { obj_idx, q_idx, prereq_id } => "objective "@ + decimal(obj_idx as nat)
                + " question "@ + decimal(q_idx as nat) + ": prereq id "@ + decimal(prereq_id as nat)
                + " not found"@,
            IssueView::SelfPrereq { obj_idx, q_idx } => "objective "@ + decimal(obj_idx as nat) + " question "@
                + decimal(q_idx as nat) + ": prereq references itself"@,
            IssueView::PrereqCycle { obj_idx, q_idx } => "objective "@ + decimal(obj_idx as nat) + " question "@
                + decimal(q_idx as nat) + ": prereq chain forms a cycle"@,
        }
    }
}

impl ValidationIssue {
    /// The message that describes the issue.
    pub fn to_string(&self) -> (s: String)
        ensures
            s@ == self@.message_of(),
    {
        let mut s = String::from_str("objective ");
        match self {
            ValidationIssue::NegativeRequiredTime { obj_idx, q_idx, action_idx } => {
                push_decimal(&mut s, *obj_idx);
                push_str(&mut s, " question ");
                push_decimal(&mut s, *q_idx);
                push_str(&mut s, " action ");
                push_decimal(&mut s, *action_idx);
                push_str(&mut s, ": required_time is negative");
            },
            ValidationIssue::AnsweredQuestionWithIncompleteActions { obj_idx, q_idx, remaining } => {
                push_decimal(&mut s, *obj_idx);
                push_str(&mut s, " question ");
                push_decimal(&mut s, *q_idx);
                push_str(&mut s, " answered but ");
                push_decimal(&mut s, *remaining);
                push_str(&mut s, " action(s) incomplete");
            },
            ValidationIssue::MetObjectiveWithUnansweredQuestions { obj_idx, remaining } => {
                push_decimal(&mut s, *obj_idx);
                push_str(&mut s, " met but ");
                push_decimal(&mut s, *remaining);
                push_str(&mut s, " question(s) unanswered");
            },
            ValidationIssue::DuplicateTag { obj_idx, name } => {
                push_decimal(&mut s, *obj_idx);
                push_str(&mut s, " has duplicate tag ");
                let q = debug_str(name.as_str());
                push_str(&mut s, q.as_str());
            },
            ValidationIssue::DuplicateQuestionId { obj_idx, id } => {
                push_decimal(&mut s, *obj_idx);
                push_str(&mut s, " has duplicate question id ");
                push_decimal(&mut s, *id);
            },
            ValidationIssue::UnknownPrereq { obj_idx, q_idx, prereq_id } => {
                push_decimal(&mut s, *obj_idx);
                push_str(&mut s, " question ");
                push_decimal(&mut s, *q_idx);
                push_str(&mut s, ": prereq id ");
                push_decimal(&mut s, *prereq_id);
                push_str(&mut s, " not found");
            },
            ValidationIssue::SelfPrereq { obj_idx, q_idx } => {
                push_decimal(&mut s, *obj_idx);
                push_str(&mut s, " question ");
                push_decimal(&mut s, *q_idx);
                push_str(&mut s, ": prereq references itself");
            },
            ValidationIssue::PrereqCycle { obj_idx, q_idx } => {
                push_decimal(&mut s, *obj_idx);
                push_str(&mut s, " question ");
                push_decimal(&mut s, *q_idx);
                push_str(&mut s, ": prereq chain forms a cycle");
            },
        }
        assert(s@ =~= self@.message_of());
        s
    }
}

pub open spec fn issue_views(s: Seq<ValidationIssue>) -> Seq<IssueView> {
    s.map_values(|i: ValidationIssue| i@)
}

pub broadcast proof fn lemma_issue_views_push(s: Seq<ValidationIssue>, i: ValidationIssue)
    ensures
        #[trigger] issue_views(s.push(i)) == issue_views(s).push(i@),
{
    assert(issue_views(s.push(i)) =~= issue_views(s).push(i@));
}

// ---------------------------------------------------------------------------
// What validation reports, stated over the abstract values.

/// Whether the tag at `i` repeats the name of an earlier tag.
pub open spec fn repeats_earlier_tag(tags: Seq<Seq<char>>, i: int) -> bool {
    exists|j: int| 0 <= j < i && tags[j] == tags[i]
}

/// The duplicate-tag issues of the first `n` tags of objective `oi`.
pub open spec fn tag_issues(oi: usize, tags: Seq<Seq<char>>, n: nat) -> Seq<IssueView>
    decreases n,
{
    if n == 0 {
        Seq::empty()
    } else {
        let prev = tag_issues(oi, tags, (n - 1) as nat);
        if repeats_earlier_tag(tags, n - 1) {
            prev.push(IssueView::DuplicateTag { obj_idx: oi, name: tags[n - 1] })
        } else {
            prev
        }
    }
}

/// The issue of a met objective that still has unanswered questions.
pub open spec fn met_issues(oi: usize, o: ObjectiveView) -> Seq<IssueView> {
    if o.met && unanswered_count(o.questions) > 0 {
        seq![IssueView::MetObjectiveWithUnansweredQuestions { obj_idx: oi, remaining: unanswered_count(o.questions) as usize }]
    } else {
        Seq::empty()
    }
}

/// The negative-time issues of the first `n` actions of question `qi`.
pub open spec fn negative_time_issues(oi: usize, qi: usize, actions: Seq<ActionView>, n: nat) -> Seq<IssueView>
    decreases n,
{
    if n == 0 {
        Seq::empty()
    } else {
        let prev = negative_time_issues(oi, qi, actions, (n - 1) as nat);
        if actions[n - 1].required_time.is_negative_of() {
            prev.push(IssueView::NegativeRequiredTime { obj_idx: oi, q_idx: qi, action_idx: (n - 1) as usize })
        } else {
            prev
        }
    }
}

/// The issues of one question: an answered question with incomplete actions,
/// then each action with a negative time.
pub open spec fn one_question_issues(oi: usize, qi: usize, q: QuestionView) -> Seq<IssueView> {
    let answered = if q.answered && incomplete_count(q.actions) > 0 {
        seq![IssueView::AnsweredQuestionWithIncompleteActions {
            obj_idx: oi,
            q_idx: qi,
            remaining: incomplete_count(q.actions) as usize,
        }]
    } else {
        Seq::empty()
    };
    answered + negative_time_issues(oi, qi, q.actions, q.actions.len())
}

/// The question issues of the first `n` questions.
pub open spec fn question_issues(oi: usize, qs: Seq<QuestionView>, n: nat) -> Seq<IssueView>
    decreases n,
{
    if n == 0 {
        Seq::empty()
    } else {
        question_issues(oi, qs, (n - 1) as nat) + one_question_issues(oi, (n - 1) as usize, qs[n - 1])
    }
}

/// Whether the question at `i` repeats the id of an earlier question.
pub open spec fn repeats_earlier_id(qs: Seq<QuestionView>, i: int) -> bool {
    exists|j: int| 0 <= j < i && qs[j].id == qs[i].id
}

/// The duplicate-id issues of the first `n` questions.
pub open spec fn duplicate_id_issues(oi: usize, qs: Seq<QuestionView>, n: nat) -> Seq<IssueView>
    decreases n,
{
    if n == 0 {
        Seq::empty()
    } else {
        let prev = duplicate_id_issues(oi, qs, (n - 1) as nat);
        if repeats_earlier_id(qs, n - 1) {
            prev.push(IssueView::DuplicateQuestionId { obj_idx: oi, id: qs[n - 1].id })
        } else {
            prev
        }
    }
}

/// Following prerequisites from the question at `cursor` for at most `steps`
/// links, each resolved to the first question with the prerequisite's id,
/// reaches a question whose id is `start_id`.
pub open spec fn walk_returns(qs: Seq<QuestionView>, start_id: usize, cursor: int, steps: nat) -> bool
    decreases steps,
{
    if steps == 0 {
        false
    } else {
        match qs[cursor].prereq {
            None => false,
            Some(p) => match position_of_id(qs, p) {
                None => false,
                Some(next) => if qs[next].id == start_id {
                    true
                } else {
                    walk_returns(qs, start_id, next, (steps - 1) as nat)
                },
            },
        }
    }
}

/// The prerequisite chain of the question at `start` comes back to it
/// within as many links as there are questions.
pub open spec fn chain_returns(qs: Seq<QuestionView>, start: int) -> bool {
    walk_returns(qs, qs[start].id, start, qs.len())
}

/// The prerequisite issue of the question at `qi`, if any: a prerequisite
/// that is the question itself, one that names no question, or one whose
/// chain comes back to the question.
pub open spec fn one_prereq_issues(oi: usize, qs: Seq<QuestionView>, qi: int) -> Seq<IssueView> {
    match qs[qi].prereq {
        None => Seq::empty(),
        Some(p) => if p == qs[qi].id {
            seq![IssueView::SelfPrereq { obj_idx: oi, q_idx: qi as usize }]
        } else if position_of_id(qs, p) is None {
            seq![IssueView::UnknownPrereq { obj_idx: oi, q_idx: qi as usize, prereq_id: p }]
        } else if chain_returns(qs, qi) {
            seq![IssueView::PrereqCycle { obj_idx: oi, q_idx: qi as usize }]
        } else {
            Seq::empty()
        },
    }
}

/// The prerequisite issues of the first `n` questions.
pub open spec fn prereq_link_issues(oi: usize, qs: Seq<QuestionView>, n: nat) -> Seq<IssueView>
    decreases n,
{
    if n == 0 {
        Seq::empty()
    } else {
        prereq_link_issues(oi, qs, (n - 1) as nat) + one_prereq_issues(oi, qs, n - 1)
    }
}

/// All issues of objective `oi`, in the order validation reports them.
pub open spec fn objective_issues(oi: usize, o: ObjectiveView) -> Seq<IssueView> {
    tag_issues(oi, o.tags, o.tags.len())
        + met_issues(oi, o)
        + question_issues(oi, o.questions, o.questions.len())
        + duplicate_id_issues(oi, o.questions, o.questions.len())
        + prereq_link_issues(oi, o.questions, o.questions.len())
}

/// The issues of the first `n` objectives.
pub open spec fn issues_upto(objs: Seq<ObjectiveView>, n: nat) -> Seq<IssueView>
    decreases n,
{
    if n == 0 {
        Seq::empty()
    } else {
        issues_upto(objs, (n - 1) as nat) + objective_issues((n - 1) as usize, objs[n - 1])
    }
}

/// All issues of a sequence of objectives.
pub open spec fn all_issues(objs: Seq<ObjectiveView>) -> Seq<IssueView> {
    issues_upto(objs, objs.len())
}


// ---------------------------------------------------------------------------
// What a clean validation means.

/// The rules that validation checks, stated directly: tag names
/// are distinct; a met objective has every question answered; an answered
/// question has every action completed; no action has a negative time;
/// question ids are distinct; and every prerequisite names another question
/// that exists and whose chain does not come back.
pub open spec fn objective_consistent(o: ObjectiveView) -> bool {
    let qs = o.questions;
    &&& o.tags.no_duplicates()
    &&& o.met ==> forall|i: int| 0 <= i < qs.len() ==> (#[trigger] qs[i]).answered
    &&& forall|i: int| 0 <= i < qs.len() ==> #[trigger] question_consistent(qs[i])
    &&& forall|i: int, j: int| 0 <= i < j < qs.len() ==> (#[trigger] qs[i]).id != (#[trigger] qs[j]).id
    &&& forall|i: int| 0 <= i < qs.len() ==> #[trigger] prereq_consistent(qs, i)
}

/// An answered question has every action completed, and no action has a
/// negative time.
pub open spec fn question_consistent(q: QuestionView) -> bool {
    forall|a: int|
        0 <= a < q.actions.len() ==> (q.answered ==> (#[trigger] q.actions[a]).completed)
            && !q.actions[a].required_time.is_negative_of()
}

/// The prerequisite of the question at `i`, if any, names another question
/// that exists, and its chain does not come back to the question.
pub open spec fn prereq_consistent(qs: Seq<QuestionView>, i: int) -> bool {
    match qs[i].prereq {
        None => true,
        Some(p) => p != qs[i].id && position_of_id(qs, p) is Some && !chain_returns(qs, i),
    }
}

proof fn lemma_tag_issues_empty(oi: usize, tags: Seq<Seq<char>>, n: nat)
    requires
        n <= tags.len(),
    ensures
        tag_issues(oi, tags, n).len() == 0 <==> forall|i: int| 0 <= i < n ==> !repeats_earlier_tag(tags, i),
    decreases n,
{
    if n > 0 {
        lemma_tag_issues_empty(oi, tags, (n - 1) as nat);
    }
}

proof fn lemma_repeats_no_duplicates(tags: Seq<Seq<char>>)
    ensures
        (forall|i: int| 0 <= i < tags.len() ==> !repeats_earlier_tag(tags, i)) <==> tags.no_duplicates(),
{
    if tags.no_duplicates() {
        assert forall|i: int| 0 <= i < tags.len() implies !repeats_earlier_tag(tags, i) by {
            if repeats_earlier_tag(tags, i) {
                let j = choose|j: int| 0 <= j < i && tags[j] == tags[i];
                assert(tags[j] != tags[i]);
            }
        }
    }
    if forall|i: int| 0 <= i < tags.len() ==> !repeats_earlier_tag(tags, i) {
        assert forall|i: int, j: int| 0 <= i < tags.len() && 0 <= j < tags.len() && i != j implies tags[i] != tags[j] by {
            if i < j {
                assert(!repeats_earlier_tag(tags, j));
            } else {
                assert(!repeats_earlier_tag(tags, i));
            }
        }
    }
}

proof fn lemma_incomplete_zero(s: Seq<ActionView>)
    ensures
        incomplete_count(s) == 0 <==> forall|a: int| 0 <= a < s.len() ==> (#[trigger] s[a]).completed,
    decreases s.len(),
{
    if s.len() > 0 {
        lemma_incomplete_zero(s.drop_last());
        if incomplete_count(s) == 0 {
            assert forall|a: int| 0 <= a < s.len() implies (#[trigger] s[a]).completed by {
                if a < s.len() - 1 {
                    assert(s.drop_last()[a] == s[a]);
                }
            }
        }
        if forall|a: int| 0 <= a < s.len() ==> (#[trigger] s[a]).completed {
            assert forall|a: int| 0 <= a < s.drop_last().len() implies (#[trigger] s.drop_last()[a]).completed by {
                assert(s.drop_last()[a] == s[a]);
            }
            assert(s[s.len() - 1].completed);
        }
    }
}

proof fn lemma_unanswered_zero(s: Seq<QuestionView>)
    ensures
        unanswered_count(s) == 0 <==> forall|a: int| 0 <= a < s.len() ==> (#[trigger] s[a]).answered,
    decreases s.len(),
{
    if s.len() > 0 {
        lemma_unanswered_zero(s.drop_last());
        if unanswered_count(s) == 0 {
            assert forall|a: int| 0 <= a < s.len() implies (#[trigger] s[a]).answered by {
                if a < s.len() - 1 {
                    assert(s.drop_last()[a] == s[a]);
                }
            }
        }
        if forall|a: int| 0 <= a < s.len() ==> (#[trigger] s[a]).answered {
            assert forall|a: int| 0 <= a < s.drop_last().len() implies (#[trigger] s.drop_last()[a]).answered by {
                assert(s.drop_last()[a] == s[a]);
            }
            assert(s[s.len() - 1].answered);
        }
    }
}

proof fn lemma_negative_issues_empty(oi: usize, qi: usize, actions: Seq<ActionView>, n: nat)
    requires
        n <= actions.len(),
    ensures
        negative_time_issues(oi, qi, actions, n).len() == 0 <==> forall|a: int|
            0 <= a < n ==> !(#[trigger] actions[a]).required_time.is_negative_of(),
    decreases n,
{
    if n > 0 {
        lemma_negative_issues_empty(oi, qi, actions, (n - 1) as nat);
    }
}

proof fn lemma_question_issues_empty(oi: usize, qs: Seq<QuestionView>, n: nat)
    requires
        n <= qs.len(),
    ensures
        question_issues(oi, qs, n).len() == 0 <==> forall|i: int|
            0 <= i < n ==> #[trigger] one_question_issues(oi, i as usize, qs[i]).len() == 0,
    decreases n,
{
    if n > 0 {
        lemma_question_issues_empty(oi, qs, (n - 1) as nat);
    }
}

proof fn lemma_one_question_clean(oi: usize, qi: usize, q: QuestionView)
    ensures
        one_question_issues(oi, qi, q).len() == 0 <==> question_consistent(q),
{
    lemma_incomplete_zero(q.actions);
    lemma_negative_issues_empty(oi, qi, q.actions, q.actions.len());
}

proof fn lemma_one_prereq_clean(oi: usize, qs: Seq<QuestionView>, i: int)
    ensures
        one_prereq_issues(oi, qs, i).len() == 0 <==> prereq_consistent(qs, i),
{
}

proof fn lemma_duplicate_id_issues_empty(oi: usize, qs: Seq<QuestionView>, n: nat)
    requires
        n <= qs.len(),
    ensures
        duplicate_id_issues(oi, qs, n).len() == 0 <==> forall|i: int| 0 <= i < n ==> !repeats_earlier_id(qs, i),
    decreases n,
{
    if n > 0 {
        lemma_duplicate_id_issues_empty(oi, qs, (n - 1) as nat);
    }
}

proof fn lemma_prereq_issues_empty(oi: usize, qs: Seq<QuestionView>, n: nat)
    requires
        n <= qs.len(),
    ensures
        prereq_link_issues(oi, qs, n).len() == 0 <==> forall|i: int|
            0 <= i < n ==> #[trigger] one_prereq_issues(oi, qs, i).len() == 0,
    decreases n,
{
    if n > 0 {
        lemma_prereq_issues_empty(oi, qs, (n - 1) as nat);
    }
}

proof fn lemma_objective_clean(oi: usize, o: ObjectiveView)
    ensures
        objective_issues(oi, o).len() == 0 <==> objective_consistent(o),
{
    let qs = o.questions;
    lemma_tag_issues_empty(oi, o.tags, o.tags.len());
    lemma_repeats_no_duplicates(o.tags);
    lemma_unanswered_zero(qs);
    lemma_question_issues_empty(oi, qs, qs.len());
    lemma_duplicate_id_issues_empty(oi, qs, qs.len());
    lemma_prereq_issues_empty(oi, qs, qs.len());
    if question_issues(oi, qs, qs.len()).len() == 0 {
        assert forall|i: int| 0 <= i < qs.len() implies #[trigger] question_consistent(qs[i]) by {
            lemma_one_question_clean(oi, i as usize, qs[i]);
            assert(one_question_issues(oi, i as usize, qs[i]).len() == 0);
        }
    }
    if forall|i: int| 0 <= i < qs.len() ==> #[trigger] question_consistent(qs[i]) {
        assert forall|i: int| 0 <= i < qs.len() implies #[trigger] one_question_issues(oi, i as usize, qs[i]).len() == 0 by {
            lemma_one_question_clean(oi, i as usize, qs[i]);
            assert(question_consistent(qs[i]));
        }
    }
    if prereq_link_issues(oi, qs, qs.len()).len() == 0 {
        assert forall|i: int| 0 <= i < qs.len() implies #[trigger] prereq_consistent(qs, i) by {
            lemma_one_prereq_clean(oi, qs, i);
            assert(one_prereq_issues(oi, qs, i).len() == 0);
        }
    }
    if forall|i: int| 0 <= i < qs.len() ==> #[trigger] prereq_consistent(qs, i) {
        assert forall|i: int| 0 <= i < qs.len() implies #[trigger] one_prereq_issues(oi, qs, i).len() == 0 by {
            lemma_one_prereq_clean(oi, qs, i);
            assert(prereq_consistent(qs, i));
        }
    }
    if duplicate_id_issues(oi, qs, qs.len()).len() == 0 {
        assert forall|i: int, j: int| 0 <= i < j < qs.len() implies (#[trigger] qs[i]).id != (#[trigger] qs[j]).id by {
            assert(!repeats_earlier_id(qs, j));
        }
    }
}

proof fn lemma_issues_upto_empty(objs: Seq<ObjectiveView>, n: nat)
    requires
        n <= objs.len(),
    ensures
        issues_upto(objs, n).len() == 0 <==> forall|i: int| 0 <= i < n ==> #[trigger] objective_consistent(objs[i]),
    decreases n,
{
    if n > 0 {
        lemma_issues_upto_empty(objs, (n - 1) as nat);
        lemma_objective_clean((n - 1) as usize, objs[n - 1]);
    }
}

/// Validation reports nothing exactly when every objective keeps the rules:
/// distinct tag names, a met objective only with every question answered,
/// an answered question only with every action completed, no negative
/// action time, distinct question ids, and prerequisites that name another
/// existing question without coming back around.
pub proof fn validation_clean_iff_consistent(objs: Seq<ObjectiveView>)
    ensures
        all_issues(objs).len() == 0 <==> forall|i: int| 0 <= i < objs.len() ==> #[trigger] objective_consistent(objs[i]),
{
    lemma_issues_upto_empty(objs, objs.len());
}

// ---------------------------------------------------------------------------
// The guarded edits keep the rules.

/// The two sequences of questions have the same ids and prerequisites,
/// position by position.
pub open spec fn same_links(a: Seq<QuestionView>, b: Seq<QuestionView>) -> bool {
    &&& a.len() == b.len()
    &&& forall|i: int| 0 <= i < a.len() ==> (#[trigger] a[i]).id == b[i].id && a[i].prereq == b[i].prereq
}

proof fn lemma_same_links_position(a: Seq<QuestionView>, b: Seq<QuestionView>, id: usize, k: int)
    requires
        same_links(a, b),
    ensures
        crate::questions::first_with_id_from(a, id, k) == crate::questions::first_with_id_from(b, id, k),
    decreases a.len() - k,
{
    if 0 <= k < a.len() {
        assert(a[k].id == b[k].id);
        lemma_same_links_position(a, b, id, k + 1);
    }
}

proof fn lemma_same_links_walk(a: Seq<QuestionView>, b: Seq<QuestionView>, sid: usize, cursor: int, steps: nat)
    requires
        same_links(a, b),
        0 <= cursor < a.len(),
    ensures
        walk_returns(a, sid, cursor, steps) == walk_returns(b, sid, cursor, steps),
    decreases steps,
{
    if steps > 0 {
        assert(a[cursor].prereq == b[cursor].prereq);
        if let Some(p) = a[cursor].prereq {
            lemma_same_links_position(a, b, p, 0);
            lemma_position_of_id(a, p);
            if let Some(next) = position_of_id(a, p) {
                assert(a[next].id == b[next].id);
                lemma_same_links_walk(a, b, sid, next, (steps - 1) as nat);
            }
        }
    }
}

proof fn lemma_same_links_prereqs(a: Seq<QuestionView>, b: Seq<QuestionView>, i: int)
    requires
        same_links(a, b),
        0 <= i < a.len(),
    ensures
        prereq_consistent(a, i) == prereq_consistent(b, i),
{
    assert(a[i].id == b[i].id && a[i].prereq == b[i].prereq);
    if let Some(p) = a[i].prereq {
        lemma_same_links_position(a, b, p, 0);
    }
    lemma_same_links_walk(a, b, a[i].id, i, a.len());
}

/// Marking an objective met, which is allowed only once every question is
/// answered, keeps a consistent objective consistent.
pub proof fn met_keeps_consistency(o: ObjectiveView)
    requires
        objective_consistent(o),
        unanswered_count(o.questions) == 0,
    ensures
        objective_consistent(ObjectiveView { met: true, ..o }),
{
    lemma_unanswered_zero(o.questions);
}

/// Answering a question, which is allowed only once all its actions are
/// completed, keeps a consistent objective consistent.
pub proof fn answer_keeps_consistency(o: ObjectiveView, qi: int)
    requires
        objective_consistent(o),
        0 <= qi < o.questions.len(),
        incomplete_count(o.questions[qi].actions) == 0,
    ensures
        objective_consistent(
            ObjectiveView { questions: o.questions.update(qi, QuestionView { answered: true, ..o.questions[qi] }), ..o },
        ),
{
    let qs = o.questions;
    let q2 = qs.update(qi, QuestionView { answered: true, ..qs[qi] });
    lemma_incomplete_zero(qs[qi].actions);
    assert(same_links(qs, q2));
    assert forall|i: int| 0 <= i < q2.len() implies #[trigger] question_consistent(q2[i]) by {
        if i != qi {
            assert(question_consistent(qs[i]));
        }
    }
    assert forall|i: int| 0 <= i < q2.len() implies #[trigger] prereq_consistent(q2, i) by {
        assert(prereq_consistent(qs, i));
        lemma_same_links_prereqs(qs, q2, i);
    }
    assert forall|i: int, j: int| 0 <= i < j < q2.len() implies (#[trigger] q2[i]).id != (#[trigger] q2[j]).id by {
        assert(qs[i].id != qs[j].id);
    }
    if o.met {
        assert forall|i: int| 0 <= i < q2.len() implies (#[trigger] q2[i]).answered by {
            assert(qs[i].answered);
        }
    }
}

/// Completing an action keeps a consistent objective consistent.
pub proof fn complete_keeps_consistency(o: ObjectiveView, qi: int, ai: int)
    requires
        objective_consistent(o),
        0 <= qi < o.questions.len(),
        0 <= ai < o.questions[qi].actions.len(),
    ensures
        objective_consistent(
            ObjectiveView {
                questions: o.questions.update(
                    qi,
                    QuestionView {
                        actions: o.questions[qi].actions.update(ai, ActionView { completed: true, ..o.questions[qi].actions[ai] }),
                        ..o.questions[qi]
                    },
                ),
                ..o
            },
        ),
{
    let qs = o.questions;
    let q = qs[qi];
    let acts = q.actions.update(ai, ActionView { completed: true, ..q.actions[ai] });
    let q2 = qs.update(qi, QuestionView { actions: acts, ..q });
    assert(same_links(qs, q2));
    assert(question_consistent(q));
    assert forall|a: int| 0 <= a < acts.len() implies (q.answered ==> (#[trigger] acts[a]).completed)
        && !acts[a].required_time.is_negative_of() by {
        assert(q.answered ==> q.actions[a].completed);
        assert(!q.actions[a].required_time.is_negative_of());
    }
    assert forall|i: int| 0 <= i < q2.len() implies #[trigger] question_consistent(q2[i]) by {
        if i != qi {
            assert(question_consistent(qs[i]));
        }
    }
    assert forall|i: int| 0 <= i < q2.len() implies #[trigger] prereq_consistent(q2, i) by {
        assert(prereq_consistent(qs, i));
        lemma_same_links_prereqs(qs, q2, i);
    }
    assert forall|i: int, j: int| 0 <= i < j < q2.len() implies (#[trigger] q2[i]).id != (#[trigger] q2[j]).id by {
        assert(qs[i].id != qs[j].id);
    }
    if o.met {
        assert forall|i: int| 0 <= i < q2.len() implies (#[trigger] q2[i]).answered by {
            assert(qs[i].answered);
        }
    }
}

/// Adding a tag keeps a consistent objective consistent.
pub proof fn tag_keeps_consistency(o: ObjectiveView, name: Seq<char>)
    requires
        objective_consistent(o),
    ensures
        objective_consistent(tag_added(o, name)),
{
    crate::questions::tag_added_keeps_names_distinct(o, name);
}

// ---------------------------------------------------------------------------
// Validation.

fn validate_tags(oi: usize, o: &Objective, issues: &mut Vec<ValidationIssue>)
    ensures
        issue_views(final(issues)@) == issue_views(old(issues)@) + tag_issues(oi, o@.tags, o@.tags.len()),
{
    broadcast use lemma_issue_views_push;
    let tags = o.tags();
    let ghost tv = o@.tags;
    let mut i: usize = 0;
    while i < tags.len()
        invariant
            i <= tags.len(),
            tv == tag_views(tags@),
            tv.len() == tags@.len(),
            issue_views(issues@) == issue_views(old(issues)@) + tag_issues(oi, tv, i as nat),
        decreases tags.len() - i,
    {
        assert(tv[i as int] == tags@[i as int]@);
        let mut seen = false;
        let mut j: usize = 0;
        while j < i
            invariant
                j <= i < tags.len(),
                tv == tag_views(tags@),
                tv.len() == tags@.len(),
                seen == exists|k: int| 0 <= k < j && tv[k] == tv[i as int],
            decreases i - j,
        {
            assert(tv[j as int] == tags@[j as int]@);
            if str_eq(tags[j].name(), tags[i].name()) {
                seen = true;
            }
            j = j + 1;
        }
        assert(repeats_earlier_tag(tv, i as int) == seen);
        assert(tag_issues(oi, tv, (i + 1) as nat) == if seen {
            tag_issues(oi, tv, i as nat).push(IssueView::DuplicateTag { obj_idx: oi, name: tv[i as int] })
        } else {
            tag_issues(oi, tv, i as nat)
        });
        let ghost before = issues@;
        assert(issue_views(before) == issue_views(old(issues)@) + tag_issues(oi, tv, i as nat));
        if seen {
            let issue = ValidationIssue::DuplicateTag { obj_idx: oi, name: String::from_str(tags[i].name()) };
            assert(issue@ == IssueView::DuplicateTag { obj_idx: oi, name: tv[i as int] });
            issues.push(issue);
            assert(issue_views(issues@) == issue_views(before).push(issue@));
        }
        assert(issue_views(old(issues)@) + tag_issues(oi, tv, (i + 1) as nat) =~= issue_views(issues@));
        i = i + 1;
    }
}

fn validate_met(oi: usize, o: &Objective, issues: &mut Vec<ValidationIssue>)
    ensures
        issue_views(final(issues)@) == issue_views(old(issues)@) + met_issues(oi, o@),
{
    broadcast use lemma_issue_views_push;
    if !o.met() {
        assert(issue_views(issues@) =~= issue_views(old(issues)@) + met_issues(oi, o@));
        return;
    }
    let unanswered = o.unanswered_question_count();
    if unanswered > 0 {
        issues.push(ValidationIssue::MetObjectiveWithUnansweredQuestions { obj_idx: oi, remaining: unanswered });
    }
    assert(issue_views(issues@) =~= issue_views(old(issues)@) + met_issues(oi, o@));
}

fn validate_questions(oi: usize, o: &Objective, issues: &mut Vec<ValidationIssue>)
    ensures
        issue_views(final(issues)@) == issue_views(old(issues)@) + question_issues(oi, o@.questions, o@.questions.len()),
{
    broadcast use lemma_issue_views_push;
    let qs = o.questions();
    let ghost qv = o@.questions;
    let mut qi: usize = 0;
    while qi < qs.len()
        invariant
            qi <= qs.len(),
            qv == question_views(qs@),
            qv.len() == qs@.len(),
            issue_views(issues@) == issue_views(old(issues)@) + question_issues(oi, qv, qi as nat),
        decreases qs.len() - qi,
    {
        let q = &qs[qi];
        assert(qv[qi as int] == q@);
        let ghost start = issue_views(issues@);
        if q.answered() {
            let incomplete = q.incomplete_action_count();
            if incomplete > 0 {
                issues.push(ValidationIssue::AnsweredQuestionWithIncompleteActions {
                    obj_idx: oi,
                    q_idx: qi,
                    remaining: incomplete,
                });
            }
        }
        let ghost mid = issue_views(issues@);
        let actions = q.actions();
        let mut ai: usize = 0;
        while ai < actions.len()
            invariant
                ai <= actions.len(),
                action_views(actions@) == q@.actions,
                issue_views(issues@) == mid + negative_time_issues(oi, qi, q@.actions, ai as nat),
            decreases actions.len() - ai,
        {
            assert(q@.actions[ai as int] == actions@[ai as int]@);
            let ghost before = issue_views(issues@);
            assert(negative_time_issues(oi, qi, q@.actions, (ai + 1) as nat) == if q@.actions[ai as int].required_time.is_negative_of() {
                negative_time_issues(oi, qi, q@.actions, ai as nat).push(IssueView::NegativeRequiredTime { obj_idx: oi, q_idx: qi, action_idx: ai })
            } else {
                negative_time_issues(oi, qi, q@.actions, ai as nat)
            });
            if actions[ai].required_time().is_negative() {
                let issue = ValidationIssue::NegativeRequiredTime { obj_idx: oi, q_idx: qi, action_idx: ai };
                issues.push(issue);
                assert(issue_views(issues@) == before.push(issue@));
            }
            assert(issue_views(issues@) =~= mid + negative_time_issues(oi, qi, q@.actions, (ai + 1) as nat));
            ai = ai + 1;
        }
        assert(issue_views(issues@) =~= start + one_question_issues(oi, qi, q@));
        assert(question_issues(oi, qv, (qi + 1) as nat) == question_issues(oi, qv, qi as nat) + one_question_issues(oi, qi, qv[qi as int]));
        assert(issue_views(issues@) =~= issue_views(old(issues)@) + question_issues(oi, qv, (qi + 1) as nat));
        qi = qi + 1;
    }
}


fn prereq_chain_returns_to(start_idx: usize, questions: &[Question]) -> (r: bool)
    requires
        start_idx < questions@.len(),
    ensures
        r == chain_returns(question_views(questions@), start_idx as int),
{
    let ghost qv = question_views(questions@);
    let n = questions.len();
    assert(qv[start_idx as int] == questions@[start_idx as int]@);
    let start_id = questions[start_idx].id();
    let mut cursor = start_idx;
    let mut k: usize = 0;
    while k < n
        invariant
            k <= n,
            n == questions@.len(),
            qv == question_views(questions@),
            cursor < n,
            start_idx < n,
            start_id == qv[start_idx as int].id,
            chain_returns(qv, start_idx as int) == walk_returns(qv, start_id, cursor as int, (n - k) as nat),
        decreases n - k,
    {
        assert(qv[cursor as int] == questions@[cursor as int]@);
        let prereq = questions[cursor].prereq();
        match prereq {
            None => {
                return false;
            },
            Some(p) => {
                proof {
                    crate::questions::lemma_position_of_id(qv, p);
                }
                match position_by_id(questions, p) {
                    None => {
                        return false;
                    },
                    Some(next) => {
                        assert(qv[next as int] == questions@[next as int]@);
                        if questions[next].id() == start_id {
                            return true;
                        }
                        cursor = next;
                    },
                }
            },
        }
        k = k + 1;
    }
    false
}

fn validate_prereqs(oi: usize, o: &Objective, issues: &mut Vec<ValidationIssue>)
    ensures
        issue_views(final(issues)@) == issue_views(old(issues)@)
            + duplicate_id_issues(oi, o@.questions, o@.questions.len())
            + prereq_link_issues(oi, o@.questions, o@.questions.len()),
{
    broadcast use lemma_issue_views_push;
    let qs = o.questions();
    let ghost qv = o@.questions;
    let mut i: usize = 0;
    while i < qs.len()
        invariant
            i <= qs.len(),
            qv == question_views(qs@),
            qv.len() == qs@.len(),
            issue_views(issues@) == issue_views(old(issues)@) + duplicate_id_issues(oi, qv, i as nat),
        decreases qs.len() - i,
    {
        assert(qv[i as int] == qs@[i as int]@);
        let id = qs[i].id();
        let mut seen = false;
        let mut j: usize = 0;
        while j < i
            invariant
                j <= i < qs.len(),
                qv == question_views(qs@),
                qv.len() == qs@.len(),
                id == qv[i as int].id,
                seen == exists|k: int| 0 <= k < j && qv[k].id == qv[i as int].id,
            decreases i - j,
        {
            assert(qv[j as int] == qs@[j as int]@);
            if qs[j].id() == id {
                seen = true;
            }
            j = j + 1;
        }
        assert(repeats_earlier_id(qv, i as int) == seen);
        let ghost before = issues@;
        if seen {
            let issue = ValidationIssue::DuplicateQuestionId { obj_idx: oi, id };
            issues.push(issue);
            assert(issue_views(issues@) == issue_views(before).push(issue@));
        }
        assert(issue_views(old(issues)@) + duplicate_id_issues(oi, qv, (i + 1) as nat) =~= issue_views(issues@));
        i = i + 1;
    }
    let ghost mid = issue_views(issues@);
    let mut qi: usize = 0;
    while qi < qs.len()
        invariant
            qi <= qs.len(),
            qv == question_views(qs@),
            qv.len() == qs@.len(),
            issue_views(issues@) == mid + prereq_link_issues(oi, qv, qi as nat),
        decreases qs.len() - qi,
    {
        assert(qv[qi as int] == qs@[qi as int]@);
        let ghost before = issues@;
        let q = &qs[qi];
        match q.prereq() {
            None => {},
            Some(prereq_id) => {
                if prereq_id == q.id() {
                    let issue = ValidationIssue::SelfPrereq { obj_idx: oi, q_idx: qi };
                    issues.push(issue);
                    assert(issue_views(issues@) == issue_views(before).push(issue@));
                } else if position_by_id(qs, prereq_id).is_none() {
                    let issue = ValidationIssue::UnknownPrereq { obj_idx: oi, q_idx: qi, prereq_id };
                    issues.push(issue);
                    assert(issue_views(issues@) == issue_views(before).push(issue@));
                } else if prereq_chain_returns_to(qi, qs) {
                    let issue = ValidationIssue::PrereqCycle { obj_idx: oi, q_idx: qi };
                    issues.push(issue);
                    assert(issue_views(issues@) == issue_views(before).push(issue@));
                }
            },
        }
        assert(issue_views(issues@) =~= issue_views(before) + one_prereq_issues(oi, qv, qi as int));
        assert(prereq_link_issues(oi, qv, (qi + 1) as nat) == prereq_link_issues(oi, qv, qi as nat) + one_prereq_issues(oi, qv, qi as int));
        assert(issue_views(issues@) =~= mid + prereq_link_issues(oi, qv, (qi + 1) as nat));
        qi = qi + 1;
    }
}

impl Default for App {
    fn default() -> (a: App)
        ensures
            a@ == Seq::<ObjectiveView>::empty(),
    {
        App::new()
    }
}

proof fn lemma_unique_tag_names(seen: Seq<Seq<char>>, tags: Seq<Seq<char>>, k: nat)
    requires
        seen.no_duplicates(),
        k <= tags.len(),
    ensures
        unique_tag_names(seen, tags, k).no_duplicates(),
        forall|x: Seq<char>|
            #[trigger] unique_tag_names(seen, tags, k).contains(x) <==> (seen.contains(x) || tags.take(k as int).contains(x)),
    decreases k,
{
    if k > 0 {
        lemma_unique_tag_names(seen, tags, (k - 1) as nat);
        let prev = unique_tag_names(seen, tags, (k - 1) as nat);
        let t = tags[k - 1];
        assert(tags.take(k as int) =~= tags.take(k - 1).push(t));
        if !prev.contains(t) {
            let r = prev.push(t);
            assert forall|a: int, b: int| 0 <= a < r.len() && 0 <= b < r.len() && a != b implies r[a] != r[b] by {
                if a < prev.len() && b < prev.len() {
                    assert(prev[a] != prev[b]);
                } else if a < prev.len() {
                    assert(prev.contains(r[a]));
                } else {
                    assert(prev.contains(r[b]));
                }
            }
        }
        assert forall|x: Seq<char>| #[trigger] unique_tag_names(seen, tags, k).contains(x) <==> (seen.contains(x)
            || tags.take(k as int).contains(x)) by {
            let r = unique_tag_names(seen, tags, k);
            let tk = tags.take(k as int);
            let tp = tags.take(k - 1);
            if tk.contains(x) && !tp.contains(x) {
                let w = choose|w: int| 0 <= w < tk.len() && tk[w] == x;
                if w < k - 1 {
                    assert(tp[w] == x);
                }
                assert(x == t);
                if !prev.contains(t) {
                    assert(r[prev.len() as int] == x);
                }
            }
            if tp.contains(x) {
                let w = choose|w: int| 0 <= w < tp.len() && tp[w] == x;
                assert(tk[w] == x);
            }
            if r.contains(x) && !prev.contains(x) {
                assert(x == t);
                assert(tk[k - 1] == x);
            }
            if prev.contains(x) && !prev.contains(t) {
                let w = choose|w: int| 0 <= w < prev.len() && prev[w] == x;
                assert(r[w] == x);
            }
        }
    }
}

/// The aggregated tag names hold each name once, and exactly the names that
/// some objective carries.
pub proof fn unique_tags_are_distinct_and_complete(objs: Seq<ObjectiveView>, n: nat)
    requires
        n <= objs.len(),
    ensures
        unique_tags_upto(objs, n).no_duplicates(),
        forall|x: Seq<char>|
            #[trigger] unique_tags_upto(objs, n).contains(x) <==> exists|i: int| 0 <= i < n && objs[i].tags.contains(x),
    decreases n,
{
    if n > 0 {
        unique_tags_are_distinct_and_complete(objs, (n - 1) as nat);
        let prev = unique_tags_upto(objs, (n - 1) as nat);
        let tags = objs[n - 1].tags;
        lemma_unique_tag_names(prev, tags, tags.len());
        assert(tags.take(tags.len() as int) =~= tags);
        assert forall|x: Seq<char>| #[trigger] unique_tags_upto(objs, n).contains(x) <==> exists|i: int|
            0 <= i < n && objs[i].tags.contains(x) by {
            if unique_tags_upto(objs, n).contains(x) {
                if prev.contains(x) {
                    let i = choose|i: int| 0 <= i < n - 1 && objs[i].tags.contains(x);
                    assert(0 <= i < n && objs[i].tags.contains(x));
                } else {
                    assert(tags.contains(x));
                    assert(0 <= n - 1 < n && objs[n - 1].tags.contains(x));
                }
            }
            if exists|i: int| 0 <= i < n && objs[i].tags.contains(x) {
                let i = choose|i: int| 0 <= i < n && objs[i].tags.contains(x);
                if i < n - 1 {
                    assert(exists|i: int| 0 <= i < n - 1 && objs[i].tags.contains(x));
                } else {
                    assert(tags.contains(x));
                }
            }
        }
    }
}

/// The application state: an ordered list of objectives.
pub struct App {
    objectives: Vec<Objective>,
}

pub open spec fn objective_views(s: Seq<Objective>) -> Seq<ObjectiveView> {
    s.map_values(|o: Objective| o@)
}

pub broadcast proof fn lemma_objective_views_update(s: Seq<Objective>, i: int, o: Objective)
    requires
        0 <= i < s.len(),
    ensures
        #[trigger] objective_views(s.update(i, o)) == objective_views(s).update(i, o@),
{
    assert(objective_views(s.update(i, o)) =~= objective_views(s).update(i, o@));
}

impl View for App {
    type V = Seq<ObjectiveView>;

    closed spec fn view(&self) -> Seq<ObjectiveView> {
        objective_views(self.objectives@)
    }
}

/// Whether objective `oi` exists.
pub open spec fn has_objective(objs: Seq<ObjectiveView>, oi: int) -> bool {
    0 <= oi < objs.len()
}

/// Whether question `qi` of objective `oi` exists.
pub open spec fn has_question(objs: Seq<ObjectiveView>, oi: int, qi: int) -> bool {
    has_objective(objs, oi) && 0 <= qi < objs[oi].questions.len()
}

/// Whether action `ai` of question `qi` of objective `oi` exists.
pub open spec fn has_action(objs: Seq<ObjectiveView>, oi: int, qi: int, ai: int) -> bool {
    has_question(objs, oi, qi) && 0 <= ai < objs[oi].questions[qi].actions.len()
}

/// The objectives with question `qi` of objective `oi` replaced by `q`.
pub open spec fn with_question(objs: Seq<ObjectiveView>, oi: int, qi: int, q: QuestionView) -> Seq<ObjectiveView> {
    let o = objs[oi];
    objs.update(oi, ObjectiveView { questions: o.questions.update(qi, q), ..o })
}

/// The objectives with action `ai` of question `qi` of objective `oi`
/// replaced by `a`.
pub open spec fn with_action(objs: Seq<ObjectiveView>, oi: int, qi: int, ai: int, a: ActionView) -> Seq<ObjectiveView> {
    let q = objs[oi].questions[qi];
    with_question(objs, oi, qi, QuestionView { actions: q.actions.update(ai, a), ..q })
}

/// The indices of the first `n` objectives that carry a tag of that name.
pub open spec fn tagged_indices(objs: Seq<ObjectiveView>, name: Seq<char>, n: nat) -> Seq<usize>
    decreases n,
{
    if n == 0 {
        Seq::empty()
    } else {
        let prev = tagged_indices(objs, name, (n - 1) as nat);
        if objs[n - 1].tags.contains(name) {
            prev.push((n - 1) as usize)
        } else {
            prev
        }
    }
}

/// The objectives found by tag are exactly those that carry a tag of that
/// name (any of their tags), each once, in their order.
pub proof fn tagged_indices_are_the_tagged_objectives(objs: Seq<ObjectiveView>, name: Seq<char>, n: nat)
    requires
        n <= objs.len() <= usize::MAX,
    ensures
        forall|i: int| 0 <= i < n ==> (tagged_indices(objs, name, n).contains(i as usize) <==> objs[i].tags.contains(name)),
        forall|a: int, b: int|
            0 <= a < b < tagged_indices(objs, name, n).len() ==> #[trigger] tagged_indices(objs, name, n)[a]
                < #[trigger] tagged_indices(objs, name, n)[b],
        forall|a: int| 0 <= a < tagged_indices(objs, name, n).len() ==> #[trigger] tagged_indices(objs, name, n)[a] < n,
    decreases n,
{
    if n > 0 {
        tagged_indices_are_the_tagged_objectives(objs, name, (n - 1) as nat);
        let prev = tagged_indices(objs, name, (n - 1) as nat);
        let cur = tagged_indices(objs, name, n);
        assert forall|i: int| 0 <= i < n implies (cur.contains(i as usize) <==> objs[i].tags.contains(name)) by {
            if cur.contains(i as usize) {
                let w = choose|w: int| 0 <= w < cur.len() && cur[w] == i as usize;
                if w < prev.len() {
                    assert(prev[w] == cur[w]);
                    assert(prev.contains(i as usize));
                }
            }
            if objs[i].tags.contains(name) {
                if i < n - 1 {
                    assert(prev.contains(i as usize));
                    let w = choose|w: int| 0 <= w < prev.len() && prev[w] == i as usize;
                    assert(cur[w] == i as usize);
                } else {
                    assert(cur[prev.len() as int] == i as usize);
                }
            }
        }
        assert forall|a: int, b: int| 0 <= a < b < cur.len() implies #[trigger] cur[a] < #[trigger] cur[b] by {
            assert(cur[a] == prev[a]);
            if b < prev.len() {
                assert(cur[b] == prev[b]);
            }
        }
        assert forall|a: int| 0 <= a < cur.len() implies #[trigger] cur[a] < n by {
            if a < prev.len() {
                assert(cur[a] == prev[a]);
            }
        }
    }
}

/// The tag names of the first `n` objectives, each once, in order of first
/// appearance.
pub open spec fn unique_tags_upto(objs: Seq<ObjectiveView>, n: nat) -> Seq<Seq<char>>
    decreases n,
{
    if n == 0 {
        Seq::empty()
    } else {
        unique_tag_names(unique_tags_upto(objs, (n - 1) as nat), objs[n - 1].tags, objs[n - 1].tags.len())
    }
}

/// `seen` extended with the first `k` of `tags` that it does not hold yet.
pub open spec fn unique_tag_names(seen: Seq<Seq<char>>, tags: Seq<Seq<char>>, k: nat) -> Seq<Seq<char>>
    decreases k,
{
    if k == 0 {
        seen
    } else {
        let prev = unique_tag_names(seen, tags, (k - 1) as nat);
        if prev.contains(tags[k - 1]) {
            prev
        } else {
            prev.push(tags[k - 1])
        }
    }
}

impl App {
    pub fn new() -> (a: App)
        ensures
            a@ == Seq::<ObjectiveView>::empty(),
    {
        let a = App { objectives: Vec::new() };
        assert(a@ =~= Seq::<ObjectiveView>::empty());
        a
    }

    /// An application holding exactly these objectives.
    pub fn from_objectives(objectives: Vec<Objective>) -> (a: App)
        ensures
            a@ == objective_views(objectives@),
    {
        App { objectives }
    }

    pub fn objectives(&self) -> (o: &[Objective])
        ensures
            objective_views(o@) == self@,
    {
        self.objectives.as_slice()
    }

    /// The objective at `idx`, if there is one, to change in place.
    pub fn objective_mut(&mut self, idx: usize) -> (r: Option<&mut Objective>)
        ensures
            idx >= old(self)@.len() ==> r is None && final(self)@ == old(self)@,
            idx < old(self)@.len() ==> r is Some && (*r->0)@ == old(self)@[idx as int]
                && final(self)@ == old(self)@.update(idx as int, (*final(r->0))@),
    {
        broadcast use lemma_objective_views_update;
        if idx < self.objectives.len() {
            Some(&mut self.objectives[idx])
        } else {
            None
        }
    }

    pub fn push_objective(&mut self, objective: Objective)
        ensures
            final(self)@ == old(self)@.push(objective@),
    {
        self.objectives.push(objective);
        assert(objective_views(self.objectives@) =~= objective_views(old(self).objectives@).push(objective@));
    }

    /// Removes and returns the objective at `idx`, shifting later ones down.
    pub fn remove_objective(&mut self, idx: usize) -> (o: Objective)
        requires
            idx < old(self)@.len(),
        ensures
            o@ == old(self)@[idx as int],
            final(self)@ == old(self)@.remove(idx as int),
    {
        let o = self.objectives.remove(idx);
        assert(objective_views(self.objectives@) =~= objective_views(old(self).objectives@).remove(idx as int));
        o
    }

    /// Adds a question to the objective at `objective_idx` and returns its
    /// id; `NotFound` when there is no such objective.
    pub fn add_question(
        &mut self,
        objective_idx: usize,
        content: String,
        priority: QuestionPriority,
        prereq: Option<usize>,
    ) -> (r: Result<usize, AppError>)
        requires
            objective_idx < old(self)@.len() ==> old(self)@[objective_idx as int].next_question_id < usize::MAX,
        ensures
            objective_idx >= old(self)@.len() ==> r == Err::<usize, AppError>(AppError::NotFound) && final(self)@
                == old(self)@,
            objective_idx < old(self)@.len() ==> {
                let o = old(self)@[objective_idx as int];
                &&& r == Ok::<usize, AppError>(o.next_question_id)
                &&& final(self)@ == old(self)@.update(
                    objective_idx as int,
                    question_pushed(
                        o,
                        QuestionView {
                            id: o.next_question_id,
                            content: content@,
                            priority,
                            actions: Seq::empty(),
                            prereq,
                            answered: false,
                        },
                    ),
                )
            },
    {
        broadcast use lemma_objective_views_update;
        if objective_idx >= self.objectives.len() {
            return Err(AppError::NotFound);
        }
        let objective = &mut self.objectives[objective_idx];
        let q = objective.add_question(content, priority, prereq);
        Ok(q.id())
    }

    /// Tags the objective at `objective_idx`; whether the tag was new, or
    /// `NotFound`.
    pub fn add_tag(&mut self, objective_idx: usize, tag: Tag) -> (r: Result<bool, AppError>)
        ensures
            objective_idx >= old(self)@.len() ==> r == Err::<bool, AppError>(AppError::NotFound) && final(self)@
                == old(self)@,
            objective_idx < old(self)@.len() ==> {
                let o = old(self)@[objective_idx as int];
                &&& r == Ok::<bool, AppError>(!o.tags.contains(tag@))
                &&& final(self)@ == old(self)@.update(objective_idx as int, tag_added(o, tag@))
            },
    {
        broadcast use lemma_objective_views_update;
        if objective_idx >= self.objectives.len() {
            return Err(AppError::NotFound);
        }
        let objective = &mut self.objectives[objective_idx];
        let added = objective.add_tag(tag);
        Ok(added)
    }

    /// Removes the first tag of that name from the objective at
    /// `objective_idx`, returning it; or `NotFound`.
    pub fn remove_tag(&mut self, objective_idx: usize, name: &str) -> (r: Result<Option<Tag>, AppError>)
        ensures
            objective_idx >= old(self)@.len() ==> r is Err && r->Err_0 == AppError::NotFound && final(self)@ == old(self)@,
            objective_idx < old(self)@.len() ==> {
                let o = old(self)@[objective_idx as int];
                &&& r is Ok
                &&& r->Ok_0 is Some <==> o.tags.contains(name@)
                &&& r->Ok_0 matches Some(t) ==> t@ == name@
                &&& final(self)@ == old(self)@.update(objective_idx as int, tag_removed(o, name@))
            },
    {
        broadcast use lemma_objective_views_update;
        if objective_idx >= self.objectives.len() {
            return Err(AppError::NotFound);
        }
        let objective = &mut self.objectives[objective_idx];
        let removed = objective.remove_tag(name);
        Ok(removed)
    }

    /// The objectives that carry a tag of that name, in order.
    pub fn objectives_with_tag(&self, name: &str) -> (r: Vec<&Objective>)
        ensures
            r@.len() == tagged_indices(self@, name@, self@.len()).len(),
            forall|k: int|
                0 <= k < r@.len() ==> (#[trigger] r@[k])@ == self@[tagged_indices(self@, name@, self@.len())[k] as int],
    {
        let ghost ov = self@;
        let mut r: Vec<&Objective> = Vec::new();
        let mut i: usize = 0;
        while i < self.objectives.len()
            invariant
                i <= self.objectives@.len(),
                ov == objective_views(self.objectives@),
                ov.len() == self.objectives@.len(),
                r@.len() == tagged_indices(ov, name@, i as nat).len(),
                forall|k: int|
                    0 <= k < r@.len() ==> (#[trigger] r@[k])@ == ov[tagged_indices(ov, name@, i as nat)[k] as int],
            decreases self.objectives@.len() - i,
        {
            assert(ov[i as int] == self.objectives@[i as int]@);
            let ghost before = r@;
            if self.objectives[i].has_tag(name) {
                r.push(&self.objectives[i]);
                assert forall|k: int| 0 <= k < r@.len() implies (#[trigger] r@[k])@ == ov[tagged_indices(ov, name@, (i + 1) as nat)[k] as int] by {
                    if k < before.len() {
                        assert(r@[k] == before[k]);
                    }
                }
            }
            i = i + 1;
        }
        r
    }

    /// Every tag of every objective, each name once, in order of first
    /// appearance.
    pub fn tags(&self) -> (r: Vec<Tag>)
        ensures
            tag_views(r@) == unique_tags_upto(self@, self@.len()),
    {
        let ghost ov = self@;
        let mut seen: Vec<Tag> = Vec::new();
        let mut i: usize = 0;
        while i < self.objectives.len()
            invariant
                i <= self.objectives@.len(),
                ov == objective_views(self.objectives@),
                ov.len() == self.objectives@.len(),
                tag_views(seen@) == unique_tags_upto(ov, i as nat),
            decreases self.objectives@.len() - i,
        {
            assert(ov[i as int] == self.objectives@[i as int]@);
            let tags = self.objectives[i].tags();
            let ghost tv = ov[i as int].tags;
            let ghost base = tag_views(seen@);
            let mut k: usize = 0;
            while k < tags.len()
                invariant
                    k <= tags@.len(),
                    tv == tag_views(tags@),
                    tv.len() == tags@.len(),
                    tag_views(seen@) == unique_tag_names(base, tv, k as nat),
                decreases tags@.len() - k,
            {
                assert(tv[k as int] == tags@[k as int]@);
                let ghost sv = tag_views(seen@);
                let mut j: usize = 0;
                let mut found = false;
                while j < seen.len()
                    invariant
                        j <= seen@.len(),
                        sv == tag_views(seen@),
                        k < tags@.len(),
                        found == exists|t: int| 0 <= t < j && sv[t] == tags@[k as int]@,
                    decreases seen@.len() - j,
                {
                    assert(sv[j as int] == seen@[j as int]@);
                    if str_eq(seen[j].name(), tags[k].name()) {
                        found = true;
                    }
                    j = j + 1;
                }
                assert(found == sv.contains(tv[k as int]));
                if !found {
                    seen.push(tags[k].clone_tag());
                    assert(tag_views(seen@) =~= sv.push(tv[k as int]));
                }
                k = k + 1;
            }
            i = i + 1;
        }
        seen
    }

    /// The application if it validates cleanly, else every issue found: the
    /// check that loading stored state makes.
    pub fn into_validated(self) -> (r: Result<App, Vec<ValidationIssue>>)
        ensures
            all_issues(self@).len() == 0 ==> (r matches Ok(a) && a@ == self@),
            all_issues(self@).len() > 0 ==> (r matches Err(issues) && issue_views(issues@) == all_issues(self@)),
    {
        let issues = self.validate();
        if issues.len() != 0 {
            return Err(issues);
        }
        Ok(self)
    }

    /// One chart task per objective; `remaining[i]` is the remaining time of
    /// objective `i`.
    pub fn gantt_tasks(&self, remaining: &Vec<Days>) -> (tasks: Vec<GanttTask>)
        requires
            remaining@.len() == self@.len(),
            forall|i: int| 0 <= i < self@.len() ==> score_sum(#[trigger] self@[i].questions) <= u32::MAX,
            tag_scores_fit(self@),
        ensures
            tasks@.len() == self@.len(),
            forall|i: int|
                0 <= i < tasks@.len() ==> #[trigger] tasks@[i]@ == (TaskView {
                    name: self@[i].content,
                    days: remaining@[i],
                    priority: max_priority(self@[i].questions),
                    group: pick_of(self@[i].tags, |name: Seq<char>| tag_score(self@, name) as int),
                }),
    {
        assert(objective_views_of(self.objectives@) =~= self@);
        assert forall|i: int| 0 <= i < self.objectives@.len() implies score_sum(#[trigger] self.objectives@[i]@.questions) <= u32::MAX by {
            assert(self@[i] == self.objectives@[i]@);
        }
        objectives_to_gantt_tasks(self.objectives.as_slice(), remaining)
    }

    /// Every issue of every objective, objective by objective: duplicate tags,
    /// a met objective with unanswered questions, answered questions with
    /// incomplete actions and negative action times, duplicate question ids,
    /// then prerequisite issues.
    pub fn validate(&self) -> (issues: Vec<ValidationIssue>)
        ensures
            issue_views(issues@) == all_issues(self@),
    {
        let mut issues: Vec<ValidationIssue> = Vec::new();
        let ghost ov = self@;
        let mut oi: usize = 0;
        while oi < self.objectives.len()
            invariant
                oi <= self.objectives.len(),
                ov == objective_views(self.objectives@),
                ov.len() == self.objectives@.len(),
                issue_views(issues@) == issues_upto(ov, oi as nat),
            decreases self.objectives.len() - oi,
        {
            let o = &self.objectives[oi];
            assert(ov[oi as int] == o@);
            let ghost start = issue_views(issues@);
            validate_tags(oi, o, &mut issues);
            validate_met(oi, o, &mut issues);
            validate_questions(oi, o, &mut issues);
            validate_prereqs(oi, o, &mut issues);
            assert(issue_views(issues@) =~= start + objective_issues(oi, o@));
            assert(issues_upto(ov, (oi + 1) as nat) == issues_upto(ov, oi as nat) + objective_issues(oi, ov[oi as int]));
            oi = oi + 1;
        }
        assert(issue_views(issues@) =~= all_issues(self@));
        issues
    }
}

} // verus!
