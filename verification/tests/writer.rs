use smart_manager_core::days::Days;
use smart_manager_core::priority::Priority;
use smart_manager_core::questions::{Objective, Question, QuestionPriority, Tag};
use smart_manager_core::writer::{objectives_to_gantt_tasks, objectives_to_schedule, pick_group, tag_priority_score_sums};
use smart_manager_core::writer::order::sort_questions_for_gantt;

fn objective(content: &str, priorities: Vec<QuestionPriority>, tags: &[&str]) -> Objective {
    let mut o = Objective::new(content.to_string());
    for p in priorities {
        o.add_question("q".to_string(), p, None);
    }
    for t in tags {
        o.add_tag(Tag::new(t));
    }
    o
}

fn zero_remaining(n: usize) -> Vec<Days> {
    vec![Days::zero(); n]
}

#[test]
fn test_pick_group_with_no_tags_returns_none() {
    let o = objective("x", vec![QuestionPriority::Medium], &[]);
    let scores = tag_priority_score_sums(std::slice::from_ref(&o));
    assert_eq!(pick_group(&o, &scores), None);
}

#[test]
fn test_pick_group_with_single_tag_returns_that_tag() {
    let o = objective("x", vec![QuestionPriority::Medium], &["work"]);
    let scores = tag_priority_score_sums(std::slice::from_ref(&o));
    assert_eq!(pick_group(&o, &scores), Some("work".to_string()));
}

#[test]
fn test_pick_group_with_two_tags_picks_higher_priority_score_sum() {
    let objectives = vec![
        objective("a", vec![QuestionPriority::Critical], &["work"]),
        objective("b", vec![QuestionPriority::Critical, QuestionPriority::High], &["work", "home"]),
        objective("c", vec![QuestionPriority::Low], &["home"]),
    ];
    let scores = tag_priority_score_sums(&objectives);
    assert_eq!(pick_group(&objectives[1], &scores), Some("work".to_string()));
}

#[test]
fn test_pick_group_with_tied_scores_picks_alphabetically_first() {
    let objectives = vec![objective("a", vec![QuestionPriority::Medium], &["zebra", "apple"])];
    let scores = tag_priority_score_sums(&objectives);
    assert_eq!(pick_group(&objectives[0], &scores), Some("apple".to_string()));
}

#[test]
fn test_objectives_to_gantt_tasks_assigns_multi_tag_to_higher_score_group() {
    let objectives = vec![
        objective("Big work", vec![QuestionPriority::Critical], &["work"]),
        objective("Both", vec![QuestionPriority::Medium], &["work", "home"]),
        objective("Just home", vec![QuestionPriority::Low], &["home"]),
    ];
    let tasks = objectives_to_gantt_tasks(&objectives, &zero_remaining(3));
    assert_eq!(tasks.len(), 3);
    assert_eq!(tasks[1].name, "Both");
    assert_eq!(tasks[1].group.as_deref(), Some("work"));
}

#[test]
fn test_objectives_to_gantt_tasks_uses_max_question_priority() {
    let objectives = vec![objective(
        "x",
        vec![QuestionPriority::Low, QuestionPriority::Critical, QuestionPriority::Medium],
        &[],
    )];
    let tasks = objectives_to_gantt_tasks(&objectives, &zero_remaining(1));
    assert_eq!(tasks[0].priority, Priority::Critical);
}

#[test]
fn test_objectives_to_gantt_tasks_with_no_tags_uses_none_group() {
    let objectives = vec![objective("x", vec![QuestionPriority::Medium], &[])];
    let tasks = objectives_to_gantt_tasks(&objectives, &zero_remaining(1));
    assert!(tasks[0].group.is_none());
}

#[test]
fn test_objectives_to_gantt_tasks_with_no_questions_defaults_to_medium() {
    let objectives = vec![objective("x", vec![], &[])];
    let tasks = objectives_to_gantt_tasks(&objectives, &zero_remaining(1));
    assert_eq!(tasks[0].priority, Priority::Medium);
}

// ---------------------------------------------------------------------------

#[test]
fn tag_scores_sum_question_scores_over_tagged_objectives() {
    let objectives = vec![
        objective("a", vec![QuestionPriority::Critical], &["work"]),
        objective("b", vec![QuestionPriority::Critical, QuestionPriority::High], &["work", "home"]),
        objective("c", vec![QuestionPriority::Low], &["home"]),
    ];
    let mut sums = tag_priority_score_sums(&objectives);
    sums.sort();
    assert_eq!(sums, vec![("home".to_string(), 8), ("work".to_string(), 11)]);
}

#[test]
fn gantt_tasks_carry_the_given_remaining_time() {
    let objectives = vec![objective("a", vec![], &[]), objective("b", vec![], &[])];
    let remaining = vec![Days::from_bits(1.5f32.to_bits()), Days::from_bits(2.0f32.to_bits())];
    let tasks = objectives_to_gantt_tasks(&objectives, &remaining);
    assert_eq!(tasks[0].days.to_bits(), 1.5f32.to_bits());
    assert_eq!(tasks[1].days.to_bits(), 2.0f32.to_bits());
}

#[test]
fn gantt_order_places_prereq_chain_root_first() {
    let mut o = Objective::new("Obj".to_string());
    let med = o.add_question("Med".to_string(), QuestionPriority::Medium, None).id();
    o.add_question("HighWithPrereq".to_string(), QuestionPriority::High, Some(med));
    o.add_question("HighSolo".to_string(), QuestionPriority::High, None);
    assert_eq!(sort_questions_for_gantt(&o), vec![2, 0, 1]);
}

#[test]
fn gantt_order_is_a_permutation_even_with_cycles() {
    let mut o = Objective::new("Obj".to_string());
    o.add_question("a".to_string(), QuestionPriority::Low, Some(1));
    o.add_question("b".to_string(), QuestionPriority::Critical, Some(0));
    o.add_question("c".to_string(), QuestionPriority::Medium, Some(42));
    let mut order = sort_questions_for_gantt(&o);
    assert_eq!(order.len(), 3);
    order.sort();
    assert_eq!(order, vec![0, 1, 2]);
}

#[test]
fn schedule_follows_gantt_order() {
    let mut o = Objective::new("Obj".to_string());
    o.add_question("low".to_string(), QuestionPriority::Low, None);
    o.add_question("crit".to_string(), QuestionPriority::Critical, None);
    let days = vec![vec![Days::zero(), Days::zero()]];
    let sched = objectives_to_schedule(std::slice::from_ref(&o), &days);
    assert_eq!(sched[0].questions[0].content, "crit");
    assert_eq!(sched[0].questions[1].content, "low");
    assert_eq!(sched[0].questions[0].priority, Priority::Critical);
}

#[test]
fn gantt_order_without_prereqs_is_by_priority_then_id() {
    let mut o = Objective::new("Obj".to_string());
    o.add_question("low".to_string(), QuestionPriority::Low, None);
    o.add_question("high a".to_string(), QuestionPriority::High, None);
    o.add_question("crit".to_string(), QuestionPriority::Critical, None);
    o.add_question("high b".to_string(), QuestionPriority::High, None);
    assert_eq!(sort_questions_for_gantt(&o), vec![2, 1, 3, 0]);
}

#[test]
fn gantt_order_places_long_chains_root_first() {
    let mut o = Objective::new("Obj".to_string());
    let a = o.add_question("a".to_string(), QuestionPriority::Low, None).id();
    let b = o.add_question("b".to_string(), QuestionPriority::Low, Some(a)).id();
    o.add_question("c".to_string(), QuestionPriority::Critical, Some(b));
    assert_eq!(sort_questions_for_gantt(&o), vec![0, 1, 2]);
}

#[test]
fn gantt_order_breaks_full_ties_by_position() {
    let qs = vec![
        Question::from_parts(5, "b".to_string(), QuestionPriority::Low, Vec::new(), None, false),
        Question::from_parts(5, "a".to_string(), QuestionPriority::Low, Vec::new(), None, false),
        Question::from_parts(9, "c".to_string(), QuestionPriority::Low, Vec::new(), None, false),
    ];
    let o = Objective::from_parts("Obj".to_string(), qs, Vec::new(), false, 10);
    assert_eq!(sort_questions_for_gantt(&o), vec![0, 1, 2]);
}
