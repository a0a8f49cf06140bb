//! The sample objectives that the interactive views start with.
use crate::app_core::objective_views;
use crate::days::Days;
use crate::questions::{
    ActionCategory, ActionPoint, ActionView, Objective, ObjectiveView, Question, QuestionPriority, QuestionView, Tag,
};
use vstd::prelude::*;

verus! {

/// A not yet completed action's value.
pub open spec fn open_action(content: Seq<char>, category: ActionCategory, bits: u32) -> ActionView {
    ActionView { content, category, required_time: Days { bits }, completed: false }
}

/// An unanswered question's value, with no prerequisite.
pub open spec fn sample_question(id: usize, content: Seq<char>, priority: QuestionPriority, actions: Seq<ActionView>) -> QuestionView {
    QuestionView { id, content, priority, actions, prereq: None, answered: false }
}

/// The sample objectives: shipping an MVP, with two questions, and onboarding
/// a pilot user, with one.  Times are one, two, one, three and a half day.
pub open spec fn sample_objectives() -> Seq<ObjectiveView> {
    seq![
        ObjectiveView {
            content: "Ship MVP"@,
            questions: seq![
                sample_question(
                    0,
                    "Is the data model right?"@,
                    QuestionPriority::High,
                    seq![
                        ActionView { completed: true, ..open_action("Sketch schema"@, ActionCategory::Writing, 0x3f80_0000) },
                        open_action("Review with team"@, ActionCategory::Managing, 0x4000_0000),
                    ],
                ),
                sample_question(
                    1,
                    "Which platforms first?"@,
                    QuestionPriority::Medium,
                    seq![
                        open_action("Pick desktop target"@, ActionCategory::Research, 0x3f80_0000),
                        open_action("Spike Dioxus desktop build"@, ActionCategory::Programming, 0x4040_0000),
                    ],
                ),
            ],
            tags: seq!["product"@, "Q2"@],
            met: false,
            next_question_id: 2,
        },
        ObjectiveView {
            content: "Onboard pilot user"@,
            questions: seq![
                sample_question(
                    0,
                    "Who is the pilot?"@,
                    QuestionPriority::Critical,
                    seq![open_action("Draft outreach list"@, ActionCategory::Writing, 0x3f00_0000)],
                ),
            ],
            tags: seq!["growth"@],
            met: false,
            next_question_id: 1,
        },
    ]
}

/// The sample objectives.
pub fn objectives() -> (v: Vec<Objective>)
    ensures
        objective_views(v@) == sample_objectives(),
{
    let mut ship = Objective::new(String::from_str("Ship MVP"));
    ship.add_tag(Tag::new("product"));
    ship.add_tag(Tag::new("Q2"));

    assert(Days { bits: 0x3f80_0000u32 }.clamp_of() == Days { bits: 0x3f80_0000u32 });
    assert(Days { bits: 0x4000_0000u32 }.clamp_of() == Days { bits: 0x4000_0000u32 });
    assert(Days { bits: 0x4040_0000u32 }.clamp_of() == Days { bits: 0x4040_0000u32 });
    assert(Days { bits: 0x3f00_0000u32 }.clamp_of() == Days { bits: 0x3f00_0000u32 });
    let mut q_model = Question::new(String::from_str("Is the data model right?"), QuestionPriority::High);
    let mut sketch = ActionPoint::new(String::from_str("Sketch schema"), ActionCategory::Writing, Days::from_bits(0x3f80_0000));
    sketch.set_completed(true);
    q_model.push_action(sketch);
    q_model.push_action(
        ActionPoint::new(String::from_str("Review with team"), ActionCategory::Managing, Days::from_bits(0x4000_0000)),
    );
    assert(q_model@.actions =~= sample_objectives()[0].questions[0].actions);
    ship.push_question(q_model);

    let mut q_platform = Question::new(String::from_str("Which platforms first?"), QuestionPriority::Medium);
    q_platform.push_action(
        ActionPoint::new(String::from_str("Pick desktop target"), ActionCategory::Research, Days::from_bits(0x3f80_0000)),
    );
    q_platform.push_action(
        ActionPoint::new(
            String::from_str("Spike Dioxus desktop build"),
            ActionCategory::Programming,
            Days::from_bits(0x4040_0000),
        ),
    );
    assert(q_platform@.actions =~= sample_objectives()[0].questions[1].actions);
    ship.push_question(q_platform);

    let mut pilot = Objective::new(String::from_str("Onboard pilot user"));
    pilot.add_tag(Tag::new("growth"));
    let mut q_pilot = Question::new(String::from_str("Who is the pilot?"), QuestionPriority::Critical);
    q_pilot.push_action(
        ActionPoint::new(String::from_str("Draft outreach list"), ActionCategory::Writing, Days::from_bits(0x3f00_0000)),
    );
    pilot.push_question(q_pilot);

    proof {
        reveal_strlit("product");
        reveal_strlit("Q2");
        assert(!seq!["product"@].contains("Q2"@)) by {
            assert("product"@.len() != "Q2"@.len());
        }
    }
    assert(ship@.tags =~= sample_objectives()[0].tags);
    assert(pilot@.tags =~= sample_objectives()[1].tags);
    let v = vec![ship, pilot];
    assert(ship@.questions =~= sample_objectives()[0].questions);
    assert(ship@ == sample_objectives()[0]);
    assert(pilot@.questions =~= sample_objectives()[1].questions);
    assert(pilot@ == sample_objectives()[1]);
    assert(objective_views(v@) =~= sample_objectives());
    v
}

} // verus!
