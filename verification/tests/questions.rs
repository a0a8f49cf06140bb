use smart_manager_core::days::Days;
use smart_manager_core::questions::{
    ActionCategory, ActionPoint, Objective, ObjectiveError, Question, QuestionError, QuestionPriority, Tag,
};

fn days(f: f32) -> Days {
    Days::from_bits(f.to_bits())
}

#[test]
fn negative_and_nan_times_are_clamped_to_zero() {
    let a = ActionPoint::new("a".to_string(), ActionCategory::Qa, days(-2.0));
    assert_eq!(a.required_time().to_bits(), 0);
    let b = ActionPoint::new("b".to_string(), ActionCategory::Qa, days(f32::NAN));
    assert_eq!(b.required_time().to_bits(), 0);
    let c = ActionPoint::new("c".to_string(), ActionCategory::Qa, days(2.5));
    assert_eq!(f32::from_bits(c.required_time().to_bits()), 2.5);
    let mut d = ActionPoint::new("d".to_string(), ActionCategory::Qa, days(1.0));
    d.set_required_time(days(-0.0));
    assert_eq!(d.required_time().to_bits(), 0);
    assert!(days(-1.0).is_negative());
    assert!(!days(-0.0).is_negative());
    assert!(days(f32::NAN).is_nan());
}

#[test]
fn answering_is_refused_while_actions_are_incomplete() {
    let mut q = Question::new("q".to_string(), QuestionPriority::Low);
    q.push_action(ActionPoint::new("a".to_string(), ActionCategory::Writing, days(1.0)));
    q.push_action(ActionPoint::new("b".to_string(), ActionCategory::Writing, days(1.0)));
    assert_eq!(q.set_answered(true), Err(QuestionError::IncompleteAction { remaining: 2 }));
    assert!(!q.answered());
    q.action_mut(0).unwrap().set_completed(true);
    q.action_mut(1).unwrap().set_completed(true);
    assert_eq!(q.incomplete_action_count(), 0);
    assert_eq!(q.set_answered(true), Ok(()));
    assert!(q.answered());
    assert_eq!(q.set_answered(false), Ok(()));
    assert_eq!(q.total_action_count(), 2);
    assert_eq!(
        QuestionError::IncompleteAction { remaining: 2 }.to_string(),
        "cannot mark question answered: 2 action(s) still incomplete"
    );
}

#[test]
fn met_is_refused_while_questions_are_unanswered() {
    let mut o = Objective::new("o".to_string());
    o.add_question("a".to_string(), QuestionPriority::Low, None);
    assert_eq!(o.set_met(true), Err(ObjectiveError::UnansweredQuestion { remaining: 1 }));
    assert!(!o.met());
    o.question_mut(0).unwrap().set_answered(true).unwrap();
    assert_eq!(o.unanswered_question_count(), 0);
    assert_eq!(o.set_met(true), Ok(()));
    assert!(o.met());
    assert_eq!(
        ObjectiveError::UnansweredQuestion { remaining: 3 }.to_string(),
        "cannot mark objective met: 3 question(s) still unanswered"
    );
}

#[test]
fn pushed_questions_get_increasing_ids() {
    let mut o = Objective::new("o".to_string());
    o.push_question(Question::from_parts(77, "x".to_string(), QuestionPriority::High, Vec::new(), None, false));
    o.push_question(Question::new("y".to_string(), QuestionPriority::Low));
    let q = o.add_question("z".to_string(), QuestionPriority::Low, Some(0));
    assert_eq!(q.id(), 2);
    let ids: Vec<usize> = o.questions().iter().map(|q| q.id()).collect();
    assert_eq!(ids, vec![0, 1, 2]);
    assert_eq!(o.next_question_id(), 3);
    assert_eq!(o.question_by_id(1).map(|q| q.content()), Some("y"));
    assert!(o.question_by_id(9).is_none());
    let removed = o.remove_question(0);
    assert_eq!(removed.content(), "x");
    assert_eq!(o.total_question_count(), 2);
}

#[test]
fn tags_keep_distinct_names_and_remove_undoes_add() {
    let mut o = Objective::new("o".to_string());
    assert!(o.add_tag(Tag::new("work")));
    assert!(!o.add_tag(Tag::new("work")));
    assert!(o.add_tag(Tag::new("home")));
    assert!(o.has_tag("home"));
    assert_eq!(o.remove_tag("home").map(|t| t.name().to_string()), Some("home".to_string()));
    assert!(!o.has_tag("home"));
    assert_eq!(o.remove_tag("home"), None);
    let names: Vec<&str> = o.tags().iter().map(|t| t.name()).collect();
    assert_eq!(names, vec!["work"]);
    assert_eq!(Tag::new("x").to_string(), "x");
}

#[test]
fn category_and_priority_names() {
    assert_eq!(QuestionPriority::LongTerm.as_str(), "long-term");
    assert_eq!(QuestionPriority::Critical.as_str(), "critical");
    assert_eq!(ActionCategory::Qa.as_str(), "qa");
    assert_eq!(ActionCategory::Presentation.as_str(), "presentation");
}

#[test]
fn edits_change_only_their_field() {
    let mut q = Question::new("q".to_string(), QuestionPriority::Low);
    q.set_content("r".to_string());
    q.set_priority(QuestionPriority::High);
    q.push_action(ActionPoint::new("a".to_string(), ActionCategory::Writing, days(1.0)));
    let removed = q.remove_action(0);
    assert_eq!(removed.content(), "a");
    assert_eq!(q.content(), "r");
    assert_eq!(q.priority(), &QuestionPriority::High);
    assert!(q.actions().is_empty());
    let mut a = ActionPoint::new("a".to_string(), ActionCategory::Writing, days(1.0));
    a.set_content("b".to_string());
    a.set_category(ActionCategory::Research);
    assert_eq!(a.content(), "b");
    assert_eq!(a.category(), &ActionCategory::Research);
}
