//! The state behind the interactive views: the objectives being edited and
//! the last refusal to show, with the edits that the views offer.
use crate::app_core::{has_action, has_objective, has_question, objective_views, with_action, with_question};
use crate::days::Days;
use crate::questions::{
    incomplete_count, question_pushed, question_views, tag_added, tag_removed, unanswered_count, ActionCategory,
    ActionPoint, ActionView, Objective, ObjectiveError, ObjectiveView, Question, QuestionError, QuestionPriority,
    QuestionView, Tag,
};
use vstd::prelude::*;

verus! {

/// The abstract value of the view state.
pub struct AppStateView {
    pub objectives: Seq<ObjectiveView>,
    pub last_error: Option<Seq<char>>,
}

/// The objectives that the views edit, and the message of the last edit
/// that was refused, until it is dismissed.
pub struct AppState {
    objectives: Vec<Objective>,
    last_error: Option<String>,
}

impl View for AppState {
    type V = AppStateView;

    closed spec fn view(&self) -> AppStateView {
        AppStateView {
            objectives: objective_views(self.objectives@),
            last_error: match self.last_error {
                Some(e) => Some(e@),
                None => None,
            },
        }
    }
}

/// The state after toggling whether objective `obj` is met.  Marking it met
/// while a question is unanswered is refused and reported instead.
pub open spec fn objective_toggled(s: AppStateView, obj: int) -> AppStateView {
    if has_objective(s.objectives, obj) {
        let o = s.objectives[obj];
        if !o.met && unanswered_count(o.questions) > 0 {
            let e = ObjectiveError::UnansweredQuestion { remaining: unanswered_count(o.questions) as usize };
            AppStateView { last_error: Some(e.message_of()), ..s }
        } else {
            AppStateView { objectives: s.objectives.update(obj, ObjectiveView { met: !o.met, ..o }), ..s }
        }
    } else {
        s
    }
}

/// The state after toggling whether question `q` of objective `obj` is
/// answered.  Answering it while an action is incomplete is refused and
/// reported instead.
pub open spec fn question_toggled(s: AppStateView, obj: int, q: int) -> AppStateView {
    if has_question(s.objectives, obj, q) {
        let qv = s.objectives[obj].questions[q];
        if !qv.answered && incomplete_count(qv.actions) > 0 {
            let e = QuestionError::IncompleteAction { remaining: incomplete_count(qv.actions) as usize };
            AppStateView { last_error: Some(e.message_of()), ..s }
        } else {
            AppStateView {
                objectives: with_question(s.objectives, obj, q, QuestionView { answered: !qv.answered, ..qv }),
                ..s
            }
        }
    } else {
        s
    }
}

/// The state after toggling whether action `a` of question `q` of
/// objective `obj` is completed.
pub open spec fn action_toggled(s: AppStateView, obj: int, q: int, a: int) -> AppStateView {
    if has_action(s.objectives, obj, q, a) {
        let av = s.objectives[obj].questions[q].actions[a];
        AppStateView {
            objectives: with_action(s.objectives, obj, q, a, ActionView { completed: !av.completed, ..av }),
            ..s
        }
    } else {
        s
    }
}

/// The time, one day, that a new action gets.
pub open spec fn one_day() -> Days {
    Days { bits: 0x3f80_0000 }
}

impl AppState {
    /// A state holding the objectives, with no error to show.
    pub fn new(initial: Vec<Objective>) -> (s: AppState)
        ensures
            s@ == (AppStateView { objectives: objective_views(initial@), last_error: None }),
    {
        AppState { objectives: initial, last_error: None }
    }

    pub fn objectives(&self) -> (o: &[Objective])
        ensures
            objective_views(o@) == self@.objectives,
    {
        self.objectives.as_slice()
    }

    pub fn last_error(&self) -> (e: Option<&str>)
        ensures
            match self@.last_error {
                Some(m) => e matches Some(x) && x@ == m,
                None => e is None,
            },
    {
        match &self.last_error {
            Some(m) => Some(m.as_str()),
            None => None,
        }
    }

    /// Dismisses the error being shown.
    pub fn clear_error(&mut self)
        ensures
            final(self)@ == (AppStateView { last_error: None, ..old(self)@ }),
    {
        self.last_error = None;
    }

    /// Toggles whether objective `obj` is met; a refusal is kept as the
    /// error to show.
    pub fn toggle_objective(&mut self, obj: usize)
        ensures
            final(self)@ == objective_toggled(old(self)@, obj as int),
    {
        if obj >= self.objectives.len() {
            return;
        }
        let ghost before = self@;
        let o = &mut self.objectives[obj];
        let next = !o.met();
        let r = o.set_met(next);
        match r {
            Ok(()) => {
                assert(objective_views(self.objectives@) =~= before.objectives.update(
                    obj as int,
                    ObjectiveView { met: next, ..before.objectives[obj as int] },
                ));
            },
            Err(e) => {
                assert(objective_views(self.objectives@) =~= before.objectives);
                self.last_error = Some(e.to_string());
            },
        }
    }

    /// Toggles whether question `q` of objective `obj` is answered; a
    /// refusal is kept as the error to show.
    pub fn toggle_question(&mut self, obj: usize, q: usize)
        ensures
            final(self)@ == question_toggled(old(self)@, obj as int, q as int),
    {
        if obj >= self.objectives.len() {
            return;
        }
        let ghost before = self@;
        assert(before.objectives[obj as int] == self.objectives@[obj as int]@);
        if q >= self.objectives[obj].questions().len() {
            return;
        }
        let o = &mut self.objectives[obj];
        let r = match o.question_mut(q) {
            Some(question) => {
                let next = !question.answered();
                question.set_answered(next)
            },
            None => Ok(()),
        };
        let ghost qv = before.objectives[obj as int].questions[q as int];
        match r {
            Ok(()) => {
                assert(objective_views(self.objectives@) =~= with_question(
                    before.objectives,
                    obj as int,
                    q as int,
                    QuestionView { answered: !qv.answered, ..qv },
                ));
            },
            Err(e) => {
                assert(before.objectives[obj as int].questions.update(q as int, qv) =~= before.objectives[obj as int].questions);
                assert(objective_views(self.objectives@) =~= before.objectives);
                self.last_error = Some(e.to_string());
            },
        }
    }

    /// Toggles whether action `a` of question `q` of objective `obj` is
    /// completed.
    pub fn toggle_action(&mut self, obj: usize, q: usize, a: usize)
        ensures
            final(self)@ == action_toggled(old(self)@, obj as int, q as int, a as int),
    {
        if obj >= self.objectives.len() {
            return;
        }
        let ghost before = self@;
        assert(before.objectives[obj as int] == self.objectives@[obj as int]@);
        let qs = self.objectives[obj].questions();
        if q >= qs.len() {
            return;
        }
        assert(before.objectives[obj as int].questions[q as int] == qs@[q as int]@);
        if a >= qs[q].actions().len() {
            return;
        }
        let o = &mut self.objectives[obj];
        match o.question_mut(q) {
            Some(question) => match question.action_mut(a) {
                Some(action) => {
                    let next = !action.completed();
                    action.set_completed(next);
                },
                None => {},
            },
            None => {},
        }
        proof {
            let av = before.objectives[obj as int].questions[q as int].actions[a as int];
            assert(objective_views(self.objectives@) =~= with_action(
                before.objectives,
                obj as int,
                q as int,
                a as int,
                ActionView { completed: !av.completed, ..av },
            ));
        }
    }

    /// Adds a new objective with the text at the end.
    pub fn add_objective(&mut self, content: String)
        ensures
            final(self)@ == (AppStateView {
                objectives: old(self)@.objectives.push(
                    ObjectiveView {
                        content: content@,
                        questions: Seq::empty(),
                        tags: Seq::empty(),
                        met: false,
                        next_question_id: 0,
                    },
                ),
                ..old(self)@
            }),
    {
        let o = Objective::new(content);
        self.objectives.push(o);
        assert(objective_views(self.objectives@) =~= objective_views(old(self).objectives@).push(o@));
    }

    /// Adds a new question of Medium priority with the text to objective
    /// `obj`, if there is one.
    pub fn add_question(&mut self, obj: usize, content: String)
        requires
            obj < old(self)@.objectives.len() ==> old(self)@.objectives[obj as int].next_question_id < usize::MAX,
        ensures
            has_objective(old(self)@.objectives, obj as int) ==> final(self)@ == (AppStateView {
                objectives: old(self)@.objectives.update(
                    obj as int,
                    question_pushed(
                        old(self)@.objectives[obj as int],
                        QuestionView {
                            id: 0,
                            content: content@,
                            priority: QuestionPriority::Medium,
                            actions: Seq::empty(),
                            prereq: None,
                            answered: false,
                        },
                    ),
                ),
                ..old(self)@
            }),
            !has_objective(old(self)@.objectives, obj as int) ==> final(self)@ == old(self)@,
    {
        if obj >= self.objectives.len() {
            return;
        }
        let ghost before = self@;
        assert(before.objectives[obj as int] == self.objectives@[obj as int]@);
        let o = &mut self.objectives[obj];
        o.push_question(Question::new(content, QuestionPriority::Medium));
        assert(objective_views(self.objectives@) =~= before.objectives.update(
            obj as int,
            question_pushed(
                before.objectives[obj as int],
                QuestionView {
                    id: 0,
                    content: content@,
                    priority: QuestionPriority::Medium,
                    actions: Seq::empty(),
                    prereq: None,
                    answered: false,
                },
            ),
        ));
    }

    /// Adds a new Writing action of one day with the text to question `q` of
    /// objective `obj`, if there is one.
    pub fn add_action(&mut self, obj: usize, q: usize, content: String)
        ensures
            has_question(old(self)@.objectives, obj as int, q as int) ==> {
                let qv = old(self)@.objectives[obj as int].questions[q as int];
                final(self)@ == (AppStateView {
                    objectives: with_question(
                        old(self)@.objectives,
                        obj as int,
                        q as int,
                        QuestionView {
                            actions: qv.actions.push(
                                ActionView {
                                    content: content@,
                                    category: ActionCategory::Writing,
                                    required_time: one_day(),
                                    completed: false,
                                },
                            ),
                            ..qv
                        },
                    ),
                    ..old(self)@
                })
            },
            !has_question(old(self)@.objectives, obj as int, q as int) ==> final(self)@ == old(self)@,
    {
        if obj >= self.objectives.len() {
            return;
        }
        let ghost before = self@;
        assert(before.objectives[obj as int] == self.objectives@[obj as int]@);
        if q >= self.objectives[obj].questions().len() {
            return;
        }
        let action = ActionPoint::new(content, ActionCategory::Writing, Days::from_bits(0x3f80_0000));
        let o = &mut self.objectives[obj];
        match o.question_mut(q) {
            Some(question) => question.push_action(action),
            None => {},
        }
        proof {
            let qv = before.objectives[obj as int].questions[q as int];
            assert(objective_views(self.objectives@) =~= with_question(
                before.objectives,
                obj as int,
                q as int,
                QuestionView { actions: qv.actions.push(action@), ..qv },
            ));
        }
    }

    /// Tags objective `obj`, if there is one, unless it has a tag of that
    /// name already.
    pub fn add_tag(&mut self, obj: usize, name: String)
        ensures
            has_objective(old(self)@.objectives, obj as int) ==> final(self)@ == (AppStateView {
                objectives: old(self)@.objectives.update(obj as int, tag_added(old(self)@.objectives[obj as int], name@)),
                ..old(self)@
            }),
            !has_objective(old(self)@.objectives, obj as int) ==> final(self)@ == old(self)@,
    {
        if obj >= self.objectives.len() {
            return;
        }
        let ghost before = self@;
        assert(before.objectives[obj as int] == self.objectives@[obj as int]@);
        let o = &mut self.objectives[obj];
        o.add_tag(Tag::new(name.as_str()));
        assert(objective_views(self.objectives@) =~= before.objectives.update(
            obj as int,
            tag_added(before.objectives[obj as int], name@),
        ));
    }

    /// Removes the first tag of that name from objective `obj`, if there is
    /// one.
    pub fn remove_tag(&mut self, obj: usize, name: String)
        ensures
            has_objective(old(self)@.objectives, obj as int) ==> final(self)@ == (AppStateView {
                objectives: old(self)@.objectives.update(obj as int, tag_removed(old(self)@.objectives[obj as int], name@)),
                ..old(self)@
            }),
            !has_objective(old(self)@.objectives, obj as int) ==> final(self)@ == old(self)@,
    {
        if obj >= self.objectives.len() {
            return;
        }
        let ghost before = self@;
        assert(before.objectives[obj as int] == self.objectives@[obj as int]@);
        let o = &mut self.objectives[obj];
        o.remove_tag(name.as_str());
        assert(objective_views(self.objectives@) =~= before.objectives.update(
            obj as int,
            tag_removed(before.objectives[obj as int], name@),
        ));
    }
}

/// Toggling an action twice gives back the state it started from.
pub proof fn action_toggle_twice_restores(s: AppStateView, obj: int, q: int, a: int)
    ensures
        action_toggled(action_toggled(s, obj, q, a), obj, q, a) == s,
{
    if has_action(s.objectives, obj, q, a) {
        let o = s.objectives[obj];
        let qv = o.questions[q];
        let av = qv.actions[a];
        let t1 = action_toggled(s, obj, q, a);
        let t2 = action_toggled(t1, obj, q, a);
        assert(t1.objectives[obj].questions[q].actions[a] == ActionView { completed: !av.completed, ..av });
        assert(t2.objectives[obj].questions[q].actions =~= qv.actions);
        assert(t2.objectives[obj].questions[q] == qv);
        assert(t2.objectives[obj].questions =~= o.questions);
        assert(t2.objectives[obj] == o);
        assert(t2.objectives =~= s.objectives);
    }
}

/// A question whose actions are all completed can be toggled either way,
/// and toggling it twice gives back the state it started from.
pub proof fn question_toggle_twice_restores(s: AppStateView, obj: int, q: int)
    requires
        has_question(s.objectives, obj, q) ==> incomplete_count(s.objectives[obj].questions[q].actions) == 0,
    ensures
        question_toggled(question_toggled(s, obj, q), obj, q) == s,
{
    if has_question(s.objectives, obj, q) {
        let o = s.objectives[obj];
        let qv = o.questions[q];
        let t1 = question_toggled(s, obj, q);
        let t2 = question_toggled(t1, obj, q);
        assert(t1.objectives[obj].questions[q] == QuestionView { answered: !qv.answered, ..qv });
        assert(t2.objectives[obj].questions =~= o.questions);
        assert(t2.objectives[obj] == o);
        assert(t2.objectives =~= s.objectives);
    }
}

/// An objective whose questions are all answered can be toggled either
/// way, and toggling it twice gives back the state it started from.
pub proof fn objective_toggle_twice_restores(s: AppStateView, obj: int)
    requires
        has_objective(s.objectives, obj) ==> unanswered_count(s.objectives[obj].questions) == 0,
    ensures
        objective_toggled(objective_toggled(s, obj), obj) == s,
{
    if has_objective(s.objectives, obj) {
        let o = s.objectives[obj];
        assert(s.objectives.update(obj, ObjectiveView { met: !o.met, ..o }).update(obj, o) =~= s.objectives);
    }
}

} // verus!
