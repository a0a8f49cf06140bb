use smart_manager_core::dummy::objectives;
use smart_manager_core::gui::AppState;
use smart_manager_core::questions::{ActionCategory, QuestionPriority};

#[test]
fn sample_objectives_hold_the_demo_plan() {
    let objs = objectives();
    assert_eq!(objs.len(), 2);
    assert_eq!(objs[0].content(), "Ship MVP");
    let tags: Vec<&str> = objs[0].tags().iter().map(|t| t.name()).collect();
    assert_eq!(tags, vec!["product", "Q2"]);
    assert_eq!(objs[0].questions().len(), 2);
    assert_eq!(objs[0].questions()[0].priority(), &QuestionPriority::High);
    assert!(objs[0].questions()[0].actions()[0].completed());
    assert_eq!(objs[0].questions()[1].actions()[1].category(), &ActionCategory::Programming);
    assert_eq!(f32::from_bits(objs[0].questions()[1].actions()[1].required_time().to_bits()), 3.0);
    assert_eq!(objs[1].questions()[0].priority(), &QuestionPriority::Critical);
    assert_eq!(f32::from_bits(objs[1].questions()[0].actions()[0].required_time().to_bits()), 0.5);
}

#[test]
fn toggling_an_action_twice_restores_it() {
    let mut s = AppState::new(objectives());
    let before = s.objectives()[0].questions()[1].actions()[0].completed();
    s.toggle_action(0, 1, 0);
    assert_eq!(s.objectives()[0].questions()[1].actions()[0].completed(), !before);
    s.toggle_action(0, 1, 0);
    assert_eq!(s.objectives()[0].questions()[1].actions()[0].completed(), before);
    s.toggle_action(9, 9, 9);
    assert!(s.last_error().is_none());
}

#[test]
fn refused_toggles_report_the_error_until_cleared() {
    let mut s = AppState::new(objectives());
    s.toggle_question(0, 0);
    assert!(!s.objectives()[0].questions()[0].answered());
    assert_eq!(s.last_error(), Some("cannot mark question answered: 1 action(s) still incomplete"));
    s.clear_error();
    assert!(s.last_error().is_none());
    s.toggle_objective(1);
    assert!(!s.objectives()[1].met());
    assert_eq!(s.last_error(), Some("cannot mark objective met: 1 question(s) still unanswered"));
}

#[test]
fn answering_after_completing_actions_succeeds() {
    let mut s = AppState::new(objectives());
    s.toggle_action(1, 0, 0);
    s.toggle_question(1, 0);
    assert!(s.objectives()[1].questions()[0].answered());
    s.toggle_objective(1);
    assert!(s.objectives()[1].met());
    s.toggle_objective(1);
    assert!(!s.objectives()[1].met());
    assert!(s.last_error().is_none());
}

#[test]
fn additions_append_with_defaults() {
    let mut s = AppState::new(Vec::new());
    s.add_objective("New".to_string());
    s.add_question(0, "Why?".to_string());
    s.add_action(0, 0, "Find out".to_string());
    s.add_tag(0, "x".to_string());
    s.add_tag(0, "x".to_string());
    let o = &s.objectives()[0];
    assert_eq!(o.content(), "New");
    assert_eq!(o.questions()[0].priority(), &QuestionPriority::Medium);
    let a = &o.questions()[0].actions()[0];
    assert_eq!(a.category(), &ActionCategory::Writing);
    assert_eq!(f32::from_bits(a.required_time().to_bits()), 1.0);
    assert_eq!(o.tags().len(), 1);
    s.remove_tag(0, "x".to_string());
    assert!(s.objectives()[0].tags().is_empty());
    s.add_question(5, "ignored".to_string());
    assert_eq!(s.objectives().len(), 1);
}
