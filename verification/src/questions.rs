//! The model: objectives, their questions and the questions' action points,
//! with the edits that keep a question answered only when its actions are
//! done and an objective met only when its questions are answered.
use crate::days::Days;
use crate::text::{decimal, push_decimal, push_str, str_eq};
use vstd::prelude::*;

verus! {

/// Marking a question answered was refused.
#[derive(Debug, PartialEq, Eq, Structural)]
pub enum QuestionError {
    IncompleteAction { remaining: usize },
}

/// Marking an objective met was refused.
#[derive(Debug, PartialEq, Eq, Structural)]
pub enum ObjectiveError {
    UnansweredQuestion { remaining: usize },
}

/// A label attached to an objective.
#[derive(Debug, Clone, PartialEq, Eq, Hash)]
pub struct Tag(String);

impl View for Tag {
    type V = Seq<char>;

    closed spec fn view(&self) -> Seq<char> {
        self.0@
    }
}

impl Tag {
    pub fn new(name: &str) -> (t: Tag)
        ensures
            t@ == name@,
    {
        Tag(String::from_str(name))
    }

    pub fn name(&self) -> (s: &str)
        ensures
            s@ == self@,
    {
        self.0.as_str()
    }

    /// The tag as text: its name.
    pub fn to_string(&self) -> (s: String)
        ensures
            s@ == self@,
    {
        self.0.clone()
    }

    /// A copy of the tag.
    pub(crate) fn clone_tag(&self) -> (t: Tag)
        ensures
            t@ == self@,
    {
        Tag(self.0.clone())
    }
}

impl QuestionError {
    pub open spec fn message_of(self) -> Seq<char> {
        match self {
            QuestionError::IncompleteAction { remaining } => "cannot mark question answered: "@ + decimal(
                remaining as nat,
            ) + " action(s) still incomplete"@,
        }
    }

    /// The message that describes the refusal.
    pub fn to_string(&self) -> (s: String)
        ensures
            s@ == self.message_of(),
    {
        match self {
            QuestionError::IncompleteAction { remaining } => {
                let mut s = String::from_str("cannot mark question answered: ");
                push_decimal(&mut s, *remaining);
                push_str(&mut s, " action(s) still incomplete");
                s
            },
        }
    }
}

impl ObjectiveError {
    pub open spec fn message_of(self) -> Seq<char> {
        match self {
            ObjectiveError::UnansweredQuestion { remaining } => "cannot mark objective met: "@ + decimal(
                remaining as nat,
            ) + " question(s) still unanswered"@,
        }
    }

    /// The message that describes the refusal.
    pub fn to_string(&self) -> (s: String)
        ensures
            s@ == self.message_of(),
    {
        match self {
            ObjectiveError::UnansweredQuestion { remaining } => {
                let mut s = String::from_str("cannot mark objective met: ");
                push_decimal(&mut s, *remaining);
                push_str(&mut s, " question(s) still unanswered");
                s
            },
        }
    }
}

/// How urgent a question is.
#[derive(Debug, Clone, Copy, PartialEq, Eq, Structural)]
pub enum QuestionPriority {
    Critical,
    High,
    Medium,
    Low,
    LongTerm,
}

/// The kind of work an action point is.
#[derive(Debug, Clone, Copy, PartialEq, Eq, Structural)]
pub enum ActionCategory {
    Writing,
    Managing,
    Qa,
    Analysis,
    Research,
    Programming,
    Presentation,
}

impl QuestionPriority {
    pub open spec fn as_str_of(self) -> Seq<char> {
        match self {
            QuestionPriority::Critical => "critical"@,
            QuestionPriority::High => "high"@,
            QuestionPriority::Medium => "medium"@,
            QuestionPriority::Low => "low"@,
            QuestionPriority::LongTerm => "long-term"@,
        }
    }

    pub fn as_str(&self) -> (s: &'static str)
        ensures
            s@ == self.as_str_of(),
    {
        match self {
            QuestionPriority::Critical => "critical",
            QuestionPriority::High => "high",
            QuestionPriority::Medium => "medium",
            QuestionPriority::Low => "low",
            QuestionPriority::LongTerm => "long-term",
        }
    }
}

impl ActionCategory {
    pub open spec fn as_str_of(self) -> Seq<char> {
        match self {
            ActionCategory::Writing => "writing"@,
            ActionCategory::Managing => "managing"@,
            ActionCategory::Qa => "qa"@,
            ActionCategory::Analysis => "analysis"@,
            ActionCategory::Research => "research"@,
            ActionCategory::Programming => "programming"@,
            ActionCategory::Presentation => "presentation"@,
        }
    }

    pub fn as_str(&self) -> (s: &'static str)
        ensures
            s@ == self.as_str_of(),
    {
        match self {
            ActionCategory::Writing => "writing",
            ActionCategory::Managing => "managing",
            ActionCategory::Qa => "qa",
            ActionCategory::Analysis => "analysis",
            ActionCategory::Research => "research",
            ActionCategory::Programming => "programming",
            ActionCategory::Presentation => "presentation",
        }
    }
}

/// The abstract value of an action point.
pub struct ActionView {
    pub content: Seq<char>,
    pub category: ActionCategory,
    pub required_time: Days,
    pub completed: bool,
}

/// One step of work that answers a question.
#[derive(Debug, Clone)]
pub struct ActionPoint {
    content: String,
    category: ActionCategory,
    required_time: Days,
    completed: bool,
}

impl View for ActionPoint {
    type V = ActionView;

    closed spec fn view(&self) -> ActionView {
        ActionView {
            content: self.content@,
            category: self.category,
            required_time: self.required_time,
            completed: self.completed,
        }
    }
}

impl ActionPoint {
    /// A new, not yet completed action; its time is `max(required_time, 0)`.
    pub fn new(content: String, category: ActionCategory, required_time: Days) -> (a: ActionPoint)
        ensures
            a@ == (ActionView {
                content: content@,
                category,
                required_time: required_time.clamp_of(),
                completed: false,
            }),
    {
        ActionPoint { content, category, required_time: required_time.clamp_non_negative(), completed: false }
    }

    /// An action with exactly the given fields, as stored.
    pub fn from_parts(content: String, category: ActionCategory, required_time: Days, completed: bool) -> (a: ActionPoint)
        ensures
            a@ == (ActionView { content: content@, category, required_time, completed }),
    {
        ActionPoint { content, category, required_time, completed }
    }

    pub fn content(&self) -> (s: &str)
        ensures
            s@ == self@.content,
    {
        self.content.as_str()
    }

    pub fn category(&self) -> (c: &ActionCategory)
        ensures
            *c == self@.category,
    {
        &self.category
    }

    pub fn required_time(&self) -> (d: Days)
        ensures
            d == self@.required_time,
    {
        self.required_time
    }

    pub fn completed(&self) -> (b: bool)
        ensures
            b == self@.completed,
    {
        self.completed
    }

    pub fn set_content(&mut self, content: String)
        ensures
            final(self)@ == (ActionView { content: content@, ..old(self)@ }),
    {
        self.content = content;
    }

    pub fn set_category(&mut self, category: ActionCategory)
        ensures
            final(self)@ == (ActionView { category, ..old(self)@ }),
    {
        self.category = category;
    }

    /// Sets the time to `max(required_time, 0)`.
    pub fn set_required_time(&mut self, required_time: Days)
        ensures
            final(self)@ == (ActionView { required_time: required_time.clamp_of(), ..old(self)@ }),
    {
        self.required_time = required_time.clamp_non_negative();
    }

    pub fn set_completed(&mut self, completed: bool)
        ensures
            final(self)@ == (ActionView { completed, ..old(self)@ }),
    {
        self.completed = completed;
    }
}


/// The abstract value of a question.
pub struct QuestionView {
    pub id: usize,
    pub content: Seq<char>,
    pub priority: QuestionPriority,
    pub actions: Seq<ActionView>,
    pub prereq: Option<usize>,
    pub answered: bool,
}

/// The views of a sequence of action points, in order.
pub open spec fn action_views(s: Seq<ActionPoint>) -> Seq<ActionView> {
    s.map_values(|a: ActionPoint| a@)
}

pub broadcast proof fn lemma_action_views_update(s: Seq<ActionPoint>, i: int, a: ActionPoint)
    requires
        0 <= i < s.len(),
    ensures
        #[trigger] action_views(s.update(i, a)) == action_views(s).update(i, a@),
{
    assert(action_views(s.update(i, a)) =~= action_views(s).update(i, a@));
}

/// The number of actions among `s` that are not completed.
pub open spec fn incomplete_count(s: Seq<ActionView>) -> nat
    decreases s.len(),
{
    if s.len() == 0 {
        0
    } else {
        incomplete_count(s.drop_last()) + if s.last().completed { 0nat } else { 1nat }
    }
}

/// A question that must be answered to meet an objective.
#[derive(Debug, Clone)]
pub struct Question {
    id: usize,
    content: String,
    priority: QuestionPriority,
    actions: Vec<ActionPoint>,
    prereq: Option<usize>,
    answered: bool,
}

impl View for Question {
    type V = QuestionView;

    closed spec fn view(&self) -> QuestionView {
        QuestionView {
            id: self.id,
            content: self.content@,
            priority: self.priority,
            actions: action_views(self.actions@),
            prereq: self.prereq,
            answered: self.answered,
        }
    }
}

impl Question {
    /// A new unanswered question with no actions, no prerequisite and id 0;
    /// an objective gives it its id when it takes it.
    pub fn new(content: String, priority: QuestionPriority) -> (q: Question)
        ensures
            q@ == (QuestionView {
                id: 0,
                content: content@,
                priority,
                actions: Seq::empty(),
                prereq: None,
                answered: false,
            }),
    {
        let q = Question { id: 0, content, priority, actions: Vec::new(), prereq: None, answered: false };
        assert(action_views(q.actions@) =~= Seq::empty());
        q
    }

    /// A question with exactly the given fields, as stored.
    pub fn from_parts(
        id: usize,
        content: String,
        priority: QuestionPriority,
        actions: Vec<ActionPoint>,
        prereq: Option<usize>,
        answered: bool,
    ) -> (q: Question)
        ensures
            q@ == (QuestionView {
                id,
                content: content@,
                priority,
                actions: action_views(actions@),
                prereq,
                answered,
            }),
    {
        Question { id, content, priority, actions, prereq, answered }
    }

    pub fn id(&self) -> (i: usize)
        ensures
            i == self@.id,
    {
        self.id
    }

    pub fn prereq(&self) -> (p: Option<usize>)
        ensures
            p == self@.prereq,
    {
        self.prereq
    }

    pub fn content(&self) -> (s: &str)
        ensures
            s@ == self@.content,
    {
        self.content.as_str()
    }

    pub fn priority(&self) -> (p: &QuestionPriority)
        ensures
            *p == self@.priority,
    {
        &self.priority
    }

    pub fn actions(&self) -> (a: &[ActionPoint])
        ensures
            action_views(a@) == self@.actions,
    {
        self.actions.as_slice()
    }

    pub fn answered(&self) -> (b: bool)
        ensures
            b == self@.answered,
    {
        self.answered
    }

    pub fn set_content(&mut self, content: String)
        ensures
            final(self)@ == (QuestionView { content: content@, ..old(self)@ }),
    {
        self.content = content;
    }

    pub fn set_priority(&mut self, priority: QuestionPriority)
        ensures
            final(self)@ == (QuestionView { priority, ..old(self)@ }),
    {
        self.priority = priority;
    }

    /// Marks the question answered or not.  Marking it answered is refused,
    /// and nothing changes, while any of its actions is incomplete.
    pub fn set_answered(&mut self, answered: bool) -> (r: Result<(), QuestionError>)
        ensures
            answered && incomplete_count(old(self)@.actions) > 0 ==> {
                &&& r == Err::<(), QuestionError>(
                    QuestionError::IncompleteAction { remaining: incomplete_count(old(self)@.actions) as usize },
                )
                &&& final(self)@ == old(self)@
            },
            !(answered && incomplete_count(old(self)@.actions) > 0) ==> {
                &&& r == Ok::<(), QuestionError>(())
                &&& final(self)@ == (QuestionView { answered, ..old(self)@ })
            },
    {
        if answered {
            let remaining = self.incomplete_action_count();
            if remaining > 0 {
                return Err(QuestionError::IncompleteAction { remaining });
            }
        }
        self.answered = answered;
        Ok(())
    }

    pub fn push_action(&mut self, action: ActionPoint)
        ensures
            final(self)@ == (QuestionView { actions: old(self)@.actions.push(action@), ..old(self)@ }),
    {
        self.actions.push(action);
        assert(action_views(self.actions@) =~= action_views(old(self).actions@).push(action@));
    }

    /// Removes and returns the action at `idx`, shifting later ones down.
    pub fn remove_action(&mut self, idx: usize) -> (a: ActionPoint)
        requires
            idx < old(self)@.actions.len(),
        ensures
            a@ == old(self)@.actions[idx as int],
            final(self)@ == (QuestionView { actions: old(self)@.actions.remove(idx as int), ..old(self)@ }),
    {
        let a = self.actions.remove(idx);
        assert(action_views(self.actions@) =~= action_views(old(self).actions@).remove(idx as int));
        a
    }

    /// The action at `idx`, if there is one, to change in place.
    pub fn action_mut(&mut self, idx: usize) -> (r: Option<&mut ActionPoint>)
        ensures
            idx >= old(self)@.actions.len() ==> r is None && final(self)@ == old(self)@,
            idx < old(self)@.actions.len() ==> r is Some && (*r->0)@ == old(self)@.actions[idx as int]
                && final(self)@ == (QuestionView {
                    actions: old(self)@.actions.update(idx as int, (*final(r->0))@),
                    ..old(self)@
                }),
    {
        broadcast use lemma_action_views_update;
        if idx < self.actions.len() {
            Some(&mut self.actions[idx])
        } else {
            None
        }
    }

    pub fn incomplete_action_count(&self) -> (n: usize)
        ensures
            n == incomplete_count(self@.actions),
    {
        let mut n: usize = 0;
        let mut i: usize = 0;
        while i < self.actions.len()
            invariant
                i <= self.actions.len(),
                n == incomplete_count(action_views(self.actions@).take(i as int)),
                n <= i,
            decreases self.actions.len() - i,
        {
            assert(action_views(self.actions@).take(i + 1).drop_last() =~= action_views(self.actions@).take(i as int));
            if !self.actions[i].completed {
                n = n + 1;
            }
            i = i + 1;
        }
        assert(action_views(self.actions@).take(i as int) =~= action_views(self.actions@));
        n
    }

    pub fn total_action_count(&self) -> (n: usize)
        ensures
            n == self@.actions.len(),
    {
        self.actions.len()
    }
}


/// The abstract value of an objective.
pub struct ObjectiveView {
    pub content: Seq<char>,
    pub questions: Seq<QuestionView>,
    pub tags: Seq<Seq<char>>,
    pub met: bool,
    pub next_question_id: usize,
}

pub open spec fn question_views(s: Seq<Question>) -> Seq<QuestionView> {
    s.map_values(|q: Question| q@)
}

pub open spec fn tag_views(s: Seq<Tag>) -> Seq<Seq<char>> {
    s.map_values(|t: Tag| t@)
}

pub broadcast proof fn lemma_question_views_update(s: Seq<Question>, i: int, q: Question)
    requires
        0 <= i < s.len(),
    ensures
        #[trigger] question_views(s.update(i, q)) == question_views(s).update(i, q@),
{
    assert(question_views(s.update(i, q)) =~= question_views(s).update(i, q@));
}

pub broadcast proof fn lemma_question_views_push_update(s: Seq<Question>, a: Question, b: Question)
    ensures
        #[trigger] question_views(s.push(a).update(s.len() as int, b)) == question_views(s).push(b@),
{
    assert(question_views(s.push(a).update(s.len() as int, b)) =~= question_views(s).push(b@));
}

/// The index of the first question with the given id, searching from `k`.
pub open spec fn first_with_id_from(qs: Seq<QuestionView>, id: usize, k: int) -> Option<int>
    decreases qs.len() - k,
{
    if k < 0 || k >= qs.len() {
        None
    } else if qs[k].id == id {
        Some(k)
    } else {
        first_with_id_from(qs, id, k + 1)
    }
}

/// The index of the first question with the given id, if any.
pub open spec fn position_of_id(qs: Seq<QuestionView>, id: usize) -> Option<int> {
    first_with_id_from(qs, id, 0)
}

pub proof fn lemma_first_with_id_from(qs: Seq<QuestionView>, id: usize, k: int)
    requires
        0 <= k,
    ensures
        first_with_id_from(qs, id, k) matches Some(i) ==> k <= i < qs.len() && qs[i].id == id
            && forall|j: int| k <= j < i ==> qs[j].id != id,
        first_with_id_from(qs, id, k) is None ==> forall|j: int| k <= j < qs.len() ==> qs[j].id != id,
    decreases qs.len() - k,
{
    if k < qs.len() && qs[k].id != id {
        lemma_first_with_id_from(qs, id, k + 1);
    }
}

/// `position_of_id` finds the first question with the id, or reports that
/// none has it.
pub proof fn lemma_position_of_id(qs: Seq<QuestionView>, id: usize)
    ensures
        position_of_id(qs, id) matches Some(i) ==> 0 <= i < qs.len() && qs[i].id == id
            && forall|j: int| 0 <= j < i ==> qs[j].id != id,
        position_of_id(qs, id) is None ==> forall|j: int| 0 <= j < qs.len() ==> qs[j].id != id,
{
    lemma_first_with_id_from(qs, id, 0);
}

/// The number of questions among `s` that are not answered.
pub open spec fn unanswered_count(s: Seq<QuestionView>) -> nat
    decreases s.len(),
{
    if s.len() == 0 {
        0
    } else {
        unanswered_count(s.drop_last()) + if s.last().answered { 0nat } else { 1nat }
    }
}

/// The index of the first question in `qs` with the given id, if any.
pub fn position_by_id(qs: &[Question], id: usize) -> (r: Option<usize>)
    ensures
        match position_of_id(question_views(qs@), id) {
            Some(i) => r == Some(i as usize),
            None => r is None,
        },
{
    let ghost views = question_views(qs@);
    let mut i: usize = 0;
    while i < qs.len()
        invariant
            i <= qs.len(),
            views == question_views(qs@),
            forall|j: int| 0 <= j < i ==> views[j].id != id,
        decreases qs.len() - i,
    {
        assert(views[i as int] == qs@[i as int]@);
        if qs[i].id == id {
            proof {
                lemma_position_of_id(views, id);
                match position_of_id(views, id) {
                    Some(k) => {
                        if k < i {
                            assert(views[k].id != id);
                        }
                        if k > i {
                            assert(views[i as int].id != id);
                        }
                    },
                    None => {
                        assert(views[i as int].id != id);
                    },
                }
            }
            return Some(i);
        }
        i = i + 1;
    }
    proof {
        lemma_position_of_id(views, id);
        if let Some(k) = position_of_id(views, id) {
            assert(views[k].id != id);
        }
    }
    None
}

/// The objective with a tag of the given name added at the end, unless a
/// tag of that name is already there.
pub open spec fn tag_added(o: ObjectiveView, name: Seq<char>) -> ObjectiveView {
    if o.tags.contains(name) {
        o
    } else {
        ObjectiveView { tags: o.tags.push(name), ..o }
    }
}

/// The objective with its first tag of the given name taken out, if any.
pub open spec fn tag_removed(o: ObjectiveView, name: Seq<char>) -> ObjectiveView {
    match o.tags.index_of_first(name) {
        None => o,
        Some(i) => ObjectiveView { tags: o.tags.remove(i), ..o },
    }
}

/// The objective with the question appended under the next question id,
/// and that id used up.
pub open spec fn question_pushed(o: ObjectiveView, q: QuestionView) -> ObjectiveView {
    ObjectiveView {
        questions: o.questions.push(QuestionView { id: o.next_question_id, ..q }),
        next_question_id: (o.next_question_id + 1) as usize,
        ..o
    }
}

/// Every question id is below the next question id, and no two questions
/// share an id.
pub open spec fn ids_fresh(o: ObjectiveView) -> bool {
    &&& forall|i: int| 0 <= i < o.questions.len() ==> (#[trigger] o.questions[i]).id < o.next_question_id
    &&& forall|i: int, j: int|
        0 <= i < j < o.questions.len() ==> (#[trigger] o.questions[i]).id != (#[trigger] o.questions[j]).id
}

/// After adding a tag the objective has it, and adding it again changes
/// nothing.
pub proof fn tag_added_has_tag(o: ObjectiveView, name: Seq<char>)
    ensures
        tag_added(o, name).tags.contains(name),
        tag_added(tag_added(o, name), name) == tag_added(o, name),
{
    if !o.tags.contains(name) {
        assert(o.tags.push(name)[o.tags.len() as int] == name);
    }
}

/// Adding a tag never gives two tags the same name.
pub proof fn tag_added_keeps_names_distinct(o: ObjectiveView, name: Seq<char>)
    requires
        o.tags.no_duplicates(),
    ensures
        tag_added(o, name).tags.no_duplicates(),
{
    if !o.tags.contains(name) {
        let t = o.tags.push(name);
        assert forall|i: int, j: int| 0 <= i < t.len() && 0 <= j < t.len() && i != j implies t[i] != t[j] by {
            if i < o.tags.len() && j < o.tags.len() {
                assert(o.tags[i] != o.tags[j]);
            } else if i < o.tags.len() {
                assert(o.tags.contains(t[i]));
            } else {
                assert(o.tags.contains(t[j]));
            }
        }
    }
}

/// Removing a tag that was just added gives back the objective as it was.
pub proof fn tag_removed_undoes_tag_added(o: ObjectiveView, name: Seq<char>)
    requires
        !o.tags.contains(name),
    ensures
        tag_removed(tag_added(o, name), name) == o,
{
    let t = o.tags.push(name);
    t.index_of_first_ensures(name);
    assert(t[o.tags.len() as int] == name);
    let k = t.index_of_first(name)->0;
    if k < o.tags.len() {
        assert(o.tags[k] == name);
    }
    assert(t.remove(o.tags.len() as int) =~= o.tags);
}

/// With distinct tag names, removing a name leaves no tag of that name.
pub proof fn tag_removed_drops_name(o: ObjectiveView, name: Seq<char>)
    requires
        o.tags.no_duplicates(),
    ensures
        !tag_removed(o, name).tags.contains(name),
{
    o.tags.index_of_first_ensures(name);
    if let Some(k) = o.tags.index_of_first(name) {
        let r = o.tags.remove(k);
        if r.contains(name) {
            let j = choose|j: int| 0 <= j < r.len() && r[j] == name;
            if j < k {
                assert(o.tags[j] == name);
            } else {
                assert(o.tags[j + 1] == name);
            }
        }
    }
}

/// Pushing a question keeps ids fresh, and the new question's id is above
/// every id before it.
pub proof fn question_pushed_keeps_ids_fresh(o: ObjectiveView, q: QuestionView)
    requires
        ids_fresh(o),
        o.next_question_id < usize::MAX,
    ensures
        ids_fresh(question_pushed(o, q)),
        forall|i: int|
            0 <= i < o.questions.len() ==> (#[trigger] o.questions[i]).id < question_pushed(o, q).questions.last().id,
{
    let p = question_pushed(o, q);
    assert forall|i: int| 0 <= i < p.questions.len() implies (#[trigger] p.questions[i]).id < p.next_question_id by {
        if i < o.questions.len() {
            assert(p.questions[i] == o.questions[i]);
        }
    }
    assert forall|i: int, j: int| 0 <= i < j < p.questions.len() implies (#[trigger] p.questions[i]).id
        != (#[trigger] p.questions[j]).id by {
        assert(p.questions[i] == o.questions[i]);
        if j < o.questions.len() {
            assert(p.questions[j] == o.questions[j]);
        }
    }
}

/// A goal, the questions to answer to reach it, and its tags.
#[derive(Debug, Clone)]
pub struct Objective {
    content: String,
    questions: Vec<Question>,
    tags: Vec<Tag>,
    met: bool,
    next_question_id: usize,
}

impl View for Objective {
    type V = ObjectiveView;

    closed spec fn view(&self) -> ObjectiveView {
        ObjectiveView {
            content: self.content@,
            questions: question_views(self.questions@),
            tags: tag_views(self.tags@),
            met: self.met,
            next_question_id: self.next_question_id,
        }
    }
}

impl Objective {
    pub fn new(content: String) -> (o: Objective)
        ensures
            o@ == (ObjectiveView {
                content: content@,
                questions: Seq::empty(),
                tags: Seq::empty(),
                met: false,
                next_question_id: 0,
            }),
    {
        let o = Objective { content, questions: Vec::new(), tags: Vec::new(), met: false, next_question_id: 0 };
        assert(question_views(o.questions@) =~= Seq::empty());
        assert(tag_views(o.tags@) =~= Seq::empty());
        o
    }

    /// An objective with exactly the given fields, as stored.
    pub fn from_parts(
        content: String,
        questions: Vec<Question>,
        tags: Vec<Tag>,
        met: bool,
        next_question_id: usize,
    ) -> (o: Objective)
        ensures
            o@ == (ObjectiveView {
                content: content@,
                questions: question_views(questions@),
                tags: tag_views(tags@),
                met,
                next_question_id,
            }),
    {
        Objective { content, questions, tags, met, next_question_id }
    }

    pub fn content(&self) -> (s: &str)
        ensures
            s@ == self@.content,
    {
        self.content.as_str()
    }

    pub fn questions(&self) -> (q: &[Question])
        ensures
            question_views(q@) == self@.questions,
    {
        self.questions.as_slice()
    }

    pub fn tags(&self) -> (t: &[Tag])
        ensures
            tag_views(t@) == self@.tags,
    {
        self.tags.as_slice()
    }

    pub fn met(&self) -> (b: bool)
        ensures
            b == self@.met,
    {
        self.met
    }

    /// The id that the next question added will get.
    pub fn next_question_id(&self) -> (n: usize)
        ensures
            n == self@.next_question_id,
    {
        self.next_question_id
    }

    pub fn has_tag(&self, name: &str) -> (b: bool)
        ensures
            b == self@.tags.contains(name@),
    {
        let mut i: usize = 0;
        while i < self.tags.len()
            invariant
                i <= self.tags.len(),
                forall|j: int| 0 <= j < i ==> self.tags@[j]@ != name@,
            decreases self.tags.len() - i,
        {
            if str_eq(self.tags[i].name(), name) {
                assert(tag_views(self.tags@)[i as int] == name@);
                return true;
            }
            i = i + 1;
        }
        assert forall|j: int| 0 <= j < self@.tags.len() implies self@.tags[j] != name@ by {
            assert(self@.tags[j] == self.tags@[j]@);
        }
        false
    }

    /// Adds the tag unless a tag of the same name is already there; returns
    /// whether it was added.
    pub fn add_tag(&mut self, tag: Tag) -> (added: bool)
        ensures
            added == !old(self)@.tags.contains(tag@),
            final(self)@ == tag_added(old(self)@, tag@),
    {
        if self.has_tag(tag.name()) {
            return false;
        }
        self.tags.push(tag);
        assert(tag_views(self.tags@) =~= tag_views(old(self).tags@).push(tag@));
        true
    }

    /// Removes and returns the first tag with the given name, if any.
    pub fn remove_tag(&mut self, name: &str) -> (r: Option<Tag>)
        ensures
            r is Some <==> old(self)@.tags.contains(name@),
            r matches Some(t) ==> t@ == name@,
            final(self)@ == tag_removed(old(self)@, name@),
    {
        proof {
            old(self)@.tags.index_of_first_ensures(name@);
        }
        let mut i: usize = 0;
        while i < self.tags.len()
            invariant
                i <= self.tags.len(),
                self == old(self),
                forall|j: int| 0 <= j < i ==> self@.tags[j] != name@,
            decreases self.tags.len() - i,
        {
            if str_eq(self.tags[i].name(), name) {
                proof {
                    assert(self@.tags[i as int] == name@);
                    assert(old(self)@.tags.contains(name@));
                    old(self)@.tags.index_of_first_ensures(name@);
                    let k = old(self)@.tags.index_of_first(name@)->0;
                    if k < i {
                        assert(self@.tags[k] != name@);
                    }
                    if k > i {
                        assert(old(self)@.tags[i as int] != name@);
                    }
                }
                let t = self.tags.remove(i);
                assert(tag_views(self.tags@) =~= tag_views(old(self).tags@).remove(i as int));
                return Some(t);
            }
            i = i + 1;
        }
        None
    }

    pub fn set_content(&mut self, content: String)
        ensures
            final(self)@ == (ObjectiveView { content: content@, ..old(self)@ }),
    {
        self.content = content;
    }

    /// Marks the objective met or not.  Marking it met is refused, and
    /// nothing changes, while any of its questions is unanswered.
    pub fn set_met(&mut self, met: bool) -> (r: Result<(), ObjectiveError>)
        ensures
            met && unanswered_count(old(self)@.questions) > 0 ==> {
                &&& r == Err::<(), ObjectiveError>(
                    ObjectiveError::UnansweredQuestion { remaining: unanswered_count(old(self)@.questions) as usize },
                )
                &&& final(self)@ == old(self)@
            },
            !(met && unanswered_count(old(self)@.questions) > 0) ==> {
                &&& r == Ok::<(), ObjectiveError>(())
                &&& final(self)@ == (ObjectiveView { met, ..old(self)@ })
            },
    {
        if met {
            let remaining = self.unanswered_question_count();
            if remaining > 0 {
                return Err(ObjectiveError::UnansweredQuestion { remaining });
            }
        }
        self.met = met;
        Ok(())
    }

    /// Takes the question, giving it the next question id.
    pub fn push_question(&mut self, question: Question)
        requires
            old(self)@.next_question_id < usize::MAX,
        ensures
            final(self)@ == question_pushed(old(self)@, question@),
    {
        let mut question = question;
        question.id = self.next_question_id;
        self.questions.push(question);
        self.next_question_id = self.next_question_id + 1;
        assert(question_views(self.questions@) =~= question_views(old(self).questions@).push(question@));
    }

    /// Adds a new unanswered question with no actions under the next question
    /// id, and returns it to change in place.
    pub fn add_question(&mut self, content: String, priority: QuestionPriority, prereq: Option<usize>) -> (q: &mut Question)
        requires
            old(self)@.next_question_id < usize::MAX,
        ensures
            (*q)@ == (QuestionView {
                id: old(self)@.next_question_id,
                content: content@,
                priority,
                actions: Seq::empty(),
                prereq,
                answered: false,
            }),
            final(self)@ == (ObjectiveView {
                questions: old(self)@.questions.push((*final(q))@),
                next_question_id: (old(self)@.next_question_id + 1) as usize,
                ..old(self)@
            }),
    {
        broadcast use lemma_question_views_push_update;
        let question = Question {
            id: self.next_question_id,
            content,
            priority,
            actions: Vec::new(),
            prereq,
            answered: false,
        };
        assert(action_views(question.actions@) =~= Seq::empty());
        self.next_question_id = self.next_question_id + 1;
        let idx = self.questions.len();
        self.questions.push(question);
        assert(question_views(self.questions@) =~= question_views(old(self).questions@).push(question@));
        &mut self.questions[idx]
    }

    /// Removes and returns the question at `idx`, shifting later ones down.
    pub fn remove_question(&mut self, idx: usize) -> (q: Question)
        requires
            idx < old(self)@.questions.len(),
        ensures
            q@ == old(self)@.questions[idx as int],
            final(self)@ == (ObjectiveView { questions: old(self)@.questions.remove(idx as int), ..old(self)@ }),
    {
        let q = self.questions.remove(idx);
        assert(question_views(self.questions@) =~= question_views(old(self).questions@).remove(idx as int));
        q
    }

    /// The question at `idx`, if there is one, to change in place.
    pub fn question_mut(&mut self, idx: usize) -> (r: Option<&mut Question>)
        ensures
            idx >= old(self)@.questions.len() ==> r is None && final(self)@ == old(self)@,
            idx < old(self)@.questions.len() ==> r is Some && (*r->0)@ == old(self)@.questions[idx as int]
                && final(self)@ == (ObjectiveView {
                    questions: old(self)@.questions.update(idx as int, (*final(r->0))@),
                    ..old(self)@
                }),
    {
        broadcast use lemma_question_views_update;
        if idx < self.questions.len() {
            Some(&mut self.questions[idx])
        } else {
            None
        }
    }

    /// The first question with the given id, if any.
    pub fn question_by_id(&self, id: usize) -> (r: Option<&Question>)
        ensures
            match position_of_id(self@.questions, id) {
                Some(i) => r matches Some(q) && q@ == self@.questions[i],
                None => r is None,
            },
    {
        proof {
            lemma_position_of_id(self@.questions, id);
        }
        let mut i: usize = 0;
        while i < self.questions.len()
            invariant
                i <= self.questions.len(),
                forall|j: int| 0 <= j < i ==> self@.questions[j].id != id,
            decreases self.questions.len() - i,
        {
            assert(self@.questions[i as int] == self.questions@[i as int]@);
            if self.questions[i].id == id {
                proof {
                    lemma_position_of_id(self@.questions, id);
                    match position_of_id(self@.questions, id) {
                        Some(k) => {
                            if k < i {
                                assert(self@.questions[k].id != id);
                            }
                            if k > i {
                                assert(self@.questions[i as int].id != id);
                            }
                        },
                        None => {
                            assert(self@.questions[i as int].id != id);
                        },
                    }
                }
                return Some(&self.questions[i]);
            }
            i = i + 1;
        }
        None
    }

    pub fn unanswered_question_count(&self) -> (n: usize)
        ensures
            n == unanswered_count(self@.questions),
    {
        let mut n: usize = 0;
        let mut i: usize = 0;
        while i < self.questions.len()
            invariant
                i <= self.questions.len(),
                n == unanswered_count(self@.questions.take(i as int)),
                n <= i,
            decreases self.questions.len() - i,
        {
            assert(self@.questions.take(i + 1).drop_last() =~= self@.questions.take(i as int));
            if !self.questions[i].answered {
                n = n + 1;
            }
            i = i + 1;
        }
        assert(self@.questions.take(i as int) =~= self@.questions);
        n
    }

    pub fn total_question_count(&self) -> (n: usize)
        ensures
            n == self@.questions.len(),
    {
        self.questions.len()
    }
}

} // verus!
