use smart_manager_core::app_core::{App, AppError, ValidationIssue};
use smart_manager_core::days::Days;
use smart_manager_core::questions::{ActionCategory, ActionPoint, Objective, Question, QuestionPriority, Tag};
use smart_manager_core::writer::gantt::{render_ascii, DayText, GanttTask};
use smart_manager_core::writer::todo::{render, TodoFormat};

fn days(f: f32) -> Days {
    Days::from_bits(f.to_bits())
}

fn objective_with_action(content: &str, time: f32, completed: bool) -> Objective {
    let mut o = Objective::new(content.to_string());
    let q = o.add_question("q".to_string(), QuestionPriority::Medium, None);
    let mut a = ActionPoint::new("a".to_string(), ActionCategory::Writing, days(time));
    a.set_completed(completed);
    q.push_action(a);
    o
}

fn remaining_of(o: &Objective) -> f32 {
    o.questions()
        .iter()
        .filter(|q| !q.answered())
        .map(|q| {
            q.actions()
                .iter()
                .filter(|a| !a.completed())
                .map(|a| f32::from_bits(a.required_time().to_bits()))
                .sum::<f32>()
        })
        .sum()
}

fn format_days(d: f32) -> String {
    if !d.is_finite() {
        return "0".to_string();
    }
    if (d - d.trunc()).abs() < f32::EPSILON {
        format!("{}", d as i64)
    } else {
        format!("{:.1}", d)
    }
}

fn make_bar(d: f32, max: f32) -> String {
    if max <= 0.0 || !d.is_finite() || d <= 0.0 {
        return String::new();
    }
    let n = ((d / max) * 40.0).round() as usize;
    "#".repeat(n.clamp(1, 40))
}

fn tasks_of(app: &App) -> Vec<GanttTask> {
    let remaining: Vec<Days> = app.objectives().iter().map(|o| days(remaining_of(o))).collect();
    app.gantt_tasks(&remaining)
}

fn labels_and_bars(tasks: &[GanttTask]) -> (Vec<DayText>, Vec<DayText>) {
    let max = tasks.iter().map(|t| f32::from_bits(t.days.to_bits())).fold(0.0_f32, f32::max);
    let labels = tasks
        .iter()
        .map(|t| DayText { days: t.days, text: format_days(f32::from_bits(t.days.to_bits())) })
        .collect();
    let bars = tasks
        .iter()
        .map(|t| DayText { days: t.days, text: make_bar(f32::from_bits(t.days.to_bits()), max) })
        .collect();
    (labels, bars)
}

fn question(id: usize, content: &str, actions: Vec<ActionPoint>, prereq: Option<usize>, answered: bool) -> Question {
    Question::from_parts(id, content.to_string(), QuestionPriority::Medium, actions, prereq, answered)
}

fn objective(content: &str, questions: Vec<Question>, tags: &[&str], met: bool, next: usize) -> Objective {
    Objective::from_parts(content.to_string(), questions, tags.iter().map(|t| Tag::new(t)).collect(), met, next)
}

fn action(time: f32, completed: bool) -> ActionPoint {
    ActionPoint::from_parts("a".to_string(), ActionCategory::Writing, days(time), completed)
}

#[test]
fn test_new_app_has_no_objectives() {
    let app = App::new();
    assert!(app.objectives().is_empty());
}

#[test]
fn test_push_objective_when_called_appends() {
    let mut app = App::new();
    app.push_objective(Objective::new("o".to_string()));
    assert_eq!(app.objectives().len(), 1);
}

#[test]
fn test_add_question_with_invalid_idx_returns_not_found() {
    let mut app = App::new();
    assert_eq!(app.add_question(0, "q".to_string(), QuestionPriority::Low, None), Err(AppError::NotFound));
}

#[test]
fn test_add_question_with_valid_idx_appends_and_returns_id() {
    let mut app = App::new();
    app.push_objective(Objective::new("o".to_string()));
    let id = app.add_question(0, "q".to_string(), QuestionPriority::Low, None).unwrap();
    assert_eq!(id, 0);
    assert_eq!(app.objectives()[0].questions().len(), 1);
}

#[test]
fn test_add_question_assigns_increasing_ids() {
    let mut app = App::new();
    app.push_objective(Objective::new("o".to_string()));
    let id0 = app.add_question(0, "a".to_string(), QuestionPriority::Low, None).unwrap();
    let id1 = app.add_question(0, "b".to_string(), QuestionPriority::Low, Some(id0)).unwrap();
    assert_eq!((id0, id1), (0, 1));
    assert_eq!(app.objectives()[0].questions()[1].prereq(), Some(0));
}

#[test]
fn test_add_tag_with_new_tag_returns_true() {
    let mut app = App::new();
    app.push_objective(Objective::new("o".to_string()));
    assert_eq!(app.add_tag(0, Tag::new("work")), Ok(true));
}

#[test]
fn test_add_tag_with_invalid_idx_returns_not_found() {
    let mut app = App::new();
    assert_eq!(app.add_tag(0, Tag::new("work")), Err(AppError::NotFound));
}

#[test]
fn test_objectives_with_tag_returns_only_tagged() {
    let mut app = App::new();
    app.push_objective(Objective::new("a".to_string()));
    app.push_objective(Objective::new("b".to_string()));
    app.push_objective(Objective::new("c".to_string()));
    app.add_tag(0, Tag::new("work")).unwrap();
    app.add_tag(2, Tag::new("work")).unwrap();
    let tagged = app.objectives_with_tag("work");
    assert_eq!(tagged.len(), 2);
    assert_eq!(tagged[0].content(), "a");
    assert_eq!(tagged[1].content(), "c");
}

#[test]
fn test_tags_aggregates_unique_tags_across_objectives() {
    let mut app = App::new();
    app.push_objective(Objective::new("a".to_string()));
    app.push_objective(Objective::new("b".to_string()));
    app.add_tag(0, Tag::new("work")).unwrap();
    app.add_tag(1, Tag::new("work")).unwrap();
    app.add_tag(1, Tag::new("personal")).unwrap();
    let mut tags: Vec<String> = app.tags().iter().map(|t| t.name().to_string()).collect();
    tags.sort();
    assert_eq!(tags, vec!["personal", "work"]);
}

fn populated_app() -> App {
    let mut app = App::new();
    app.push_objective(objective_with_action("a", 1.5, false));
    app.push_objective(objective_with_action("b", 2.0, true));
    app.add_tag(0, Tag::new("work")).unwrap();
    app.add_tag(1, Tag::new("home")).unwrap();
    app.add_question(0, "q2".to_string(), QuestionPriority::High, None).unwrap();
    app
}

#[test]
fn test_render_gantt_ascii_includes_objective_content() {
    let mut app = App::new();
    app.push_objective(objective_with_action("Foo", 2.0, false));
    let tasks = tasks_of(&app);
    let (labels, bars) = labels_and_bars(&tasks);
    let out = render_ascii(&tasks, &labels, &bars);
    assert!(out.contains("Foo"));
}

#[test]
fn test_render_todo_markdown_includes_checkbox_for_objective() {
    let mut app = App::new();
    app.push_objective(objective_with_action("Foo", 1.0, false));
    let tasks = tasks_of(&app);
    let (labels, _) = labels_and_bars(&tasks);
    let out = render(&tasks, TodoFormat::Markdown, &labels);
    assert!(out.contains("- [ ]"));
    assert!(out.contains("Foo"));
}

#[test]
fn test_validate_with_clean_app_returns_empty_vec() {
    let app = populated_app();
    assert!(app.validate().is_empty());
}

#[test]
fn test_validate_with_negative_required_time_reports_issue() {
    let app = App::from_objectives(vec![objective(
        "x",
        vec![question(0, "q", vec![action(-5.0, false)], None, false)],
        &[],
        false,
        1,
    )]);
    let issues = app.validate();
    assert_eq!(issues.len(), 1);
    assert!(matches!(issues[0], ValidationIssue::NegativeRequiredTime { obj_idx: 0, q_idx: 0, action_idx: 0 }));
}

#[test]
fn test_validate_with_answered_question_having_incomplete_actions_reports_issue() {
    let app = App::from_objectives(vec![objective(
        "x",
        vec![question(0, "q", vec![action(1.0, false)], None, true)],
        &[],
        false,
        1,
    )]);
    let issues = app.validate();
    assert!(matches!(
        issues[0],
        ValidationIssue::AnsweredQuestionWithIncompleteActions { obj_idx: 0, q_idx: 0, remaining: 1 }
    ));
}

#[test]
fn test_validate_with_met_objective_having_unanswered_questions_reports_issue() {
    let app = App::from_objectives(vec![objective("x", vec![question(0, "q", vec![], None, false)], &[], true, 1)]);
    let issues = app.validate();
    assert!(matches!(issues[0], ValidationIssue::MetObjectiveWithUnansweredQuestions { obj_idx: 0, remaining: 1 }));
}

#[test]
fn test_validate_with_duplicate_tags_reports_issue() {
    let app = App::from_objectives(vec![objective("x", vec![], &["work", "work"], false, 0)]);
    let issues = app.validate();
    assert_eq!(issues.len(), 1);
    assert!(matches!(&issues[0], ValidationIssue::DuplicateTag { obj_idx: 0, name } if name == "work"));
}

#[test]
fn test_validate_with_duplicate_question_id_reports_issue() {
    let app = App::from_objectives(vec![objective(
        "x",
        vec![question(1, "a", vec![], None, false), question(1, "b", vec![], None, false)],
        &[],
        false,
        2,
    )]);
    let issues = app.validate();
    assert!(matches!(issues[0], ValidationIssue::DuplicateQuestionId { obj_idx: 0, id: 1 }));
}

#[test]
fn test_validate_with_unknown_prereq_reports_issue() {
    let app = App::from_objectives(vec![objective("x", vec![question(0, "a", vec![], Some(99), false)], &[], false, 1)]);
    let issues = app.validate();
    assert!(matches!(issues[0], ValidationIssue::UnknownPrereq { obj_idx: 0, q_idx: 0, prereq_id: 99 }));
}

#[test]
fn test_validate_with_self_prereq_reports_issue() {
    let app = App::from_objectives(vec![objective("x", vec![question(7, "a", vec![], Some(7), false)], &[], false, 8)]);
    let issues = app.validate();
    assert!(matches!(issues[0], ValidationIssue::SelfPrereq { obj_idx: 0, q_idx: 0 }));
}

#[test]
fn test_validate_with_prereq_cycle_reports_issue() {
    let app = App::from_objectives(vec![objective(
        "x",
        vec![question(0, "a", vec![], Some(1), false), question(1, "b", vec![], Some(0), false)],
        &[],
        false,
        2,
    )]);
    let issues = app.validate();
    let cycles: Vec<_> = issues.iter().filter(|i| matches!(i, ValidationIssue::PrereqCycle { .. })).collect();
    assert_eq!(cycles.len(), 2);
}

#[test]
fn test_validate_allows_answered_question_with_unanswered_prereq() {
    let app = App::from_objectives(vec![objective(
        "x",
        vec![question(0, "a", vec![], None, false), question(1, "b", vec![], Some(0), true)],
        &[],
        false,
        2,
    )]);
    assert!(app.validate().is_empty());
}

#[test]
fn test_validate_with_valid_prereq_chain_reports_no_issue() {
    let app = App::from_objectives(vec![objective(
        "x",
        vec![
            question(0, "a", vec![], None, false),
            question(1, "b", vec![], Some(0), false),
            question(2, "c", vec![], Some(1), false),
        ],
        &[],
        false,
        3,
    )]);
    assert!(app.validate().is_empty());
}

#[test]
fn test_validate_collects_all_issues() {
    let app = App::from_objectives(vec![
        objective("a", vec![question(0, "q", vec![action(-1.0, false)], None, true)], &["x", "x"], false, 1),
        objective("b", vec![question(0, "q", vec![], None, false)], &[], true, 1),
    ]);
    let issues = app.validate();
    assert_eq!(issues.len(), 4);
}

// ---------------------------------------------------------------------------

#[test]
fn validation_reports_issues_in_objective_order() {
    let app = App::from_objectives(vec![
        objective("a", vec![question(0, "q", vec![action(-1.0, false)], None, true)], &["x", "x"], false, 1),
        objective("b", vec![question(0, "q", vec![], None, false)], &[], true, 1),
    ]);
    let issues = app.validate();
    assert_eq!(
        issues,
        vec![
            ValidationIssue::DuplicateTag { obj_idx: 0, name: "x".to_string() },
            ValidationIssue::AnsweredQuestionWithIncompleteActions { obj_idx: 0, q_idx: 0, remaining: 1 },
            ValidationIssue::NegativeRequiredTime { obj_idx: 0, q_idx: 0, action_idx: 0 },
            ValidationIssue::MetObjectiveWithUnansweredQuestions { obj_idx: 1, remaining: 1 },
        ]
    );
}

#[test]
fn issue_messages_describe_each_issue() {
    let issues = [
        ValidationIssue::NegativeRequiredTime { obj_idx: 0, q_idx: 1, action_idx: 2 },
        ValidationIssue::AnsweredQuestionWithIncompleteActions { obj_idx: 3, q_idx: 4, remaining: 5 },
        ValidationIssue::MetObjectiveWithUnansweredQuestions { obj_idx: 6, remaining: 7 },
        ValidationIssue::DuplicateTag { obj_idx: 8, name: "a\"b".to_string() },
        ValidationIssue::DuplicateQuestionId { obj_idx: 9, id: 10 },
        ValidationIssue::UnknownPrereq { obj_idx: 11, q_idx: 12, prereq_id: 13 },
        ValidationIssue::SelfPrereq { obj_idx: 14, q_idx: 15 },
        ValidationIssue::PrereqCycle { obj_idx: 16, q_idx: 17 },
    ];
    let texts: Vec<String> = issues.iter().map(|i| i.to_string()).collect();
    assert_eq!(texts[3], format!("objective {} has duplicate tag {:?}", 8, "a\"b"));
    for t in &texts {
        assert!(t.starts_with("objective "), "{t}");
    }
    assert!(texts[7].ends_with("prereq chain forms a cycle"));
}

#[test]
fn self_prereq_is_not_also_reported_as_cycle() {
    let app = App::from_objectives(vec![objective("x", vec![question(7, "a", vec![], Some(7), false)], &[], false, 8)]);
    assert_eq!(app.validate(), vec![ValidationIssue::SelfPrereq { obj_idx: 0, q_idx: 0 }]);
}

#[test]
fn longer_prereq_cycle_reports_each_member() {
    let app = App::from_objectives(vec![objective(
        "x",
        vec![
            question(0, "a", vec![], Some(2), false),
            question(1, "b", vec![], Some(0), false),
            question(2, "c", vec![], Some(1), false),
            question(3, "d", vec![], Some(0), false),
        ],
        &[],
        false,
        4,
    )]);
    let issues = app.validate();
    assert_eq!(
        issues,
        vec![
            ValidationIssue::PrereqCycle { obj_idx: 0, q_idx: 0 },
            ValidationIssue::PrereqCycle { obj_idx: 0, q_idx: 1 },
            ValidationIssue::PrereqCycle { obj_idx: 0, q_idx: 2 },
        ]
    );
}

#[test]
fn into_validated_refuses_inconsistent_state() {
    let bad = App::from_objectives(vec![objective("x", vec![], &["t", "t"], false, 0)]);
    match bad.into_validated() {
        Err(issues) => assert_eq!(issues.len(), 1),
        Ok(_) => panic!("expected issues"),
    }
    let good = populated_app();
    assert!(good.into_validated().is_ok());
}

#[test]
fn app_errors_have_messages() {
    assert_eq!(AppError::NotFound.to_string(), "objective or question not found");
}

#[test]
fn remove_tag_undoes_add_tag() {
    let mut app = App::new();
    app.push_objective(Objective::new("o".to_string()));
    app.add_tag(0, Tag::new("keep")).unwrap();
    assert_eq!(app.add_tag(0, Tag::new("work")), Ok(true));
    assert_eq!(app.add_tag(0, Tag::new("work")), Ok(false));
    let removed = app.remove_tag(0, "work").unwrap();
    assert_eq!(removed.map(|t| t.name().to_string()), Some("work".to_string()));
    let names: Vec<&str> = app.objectives()[0].tags().iter().map(|t| t.name()).collect();
    assert_eq!(names, vec!["keep"]);
    assert_eq!(app.remove_tag(0, "work").unwrap(), None);
    assert_eq!(app.remove_tag(5, "work"), Err(AppError::NotFound));
}

#[test]
fn remove_objective_shifts_later_ones() {
    let mut app = App::new();
    app.push_objective(Objective::new("a".to_string()));
    app.push_objective(Objective::new("b".to_string()));
    let removed = app.remove_objective(0);
    assert_eq!(removed.content(), "a");
    assert_eq!(app.objectives()[0].content(), "b");
}

#[test]
fn objective_mut_edits_in_place() {
    let mut app = App::default();
    app.push_objective(Objective::new("a".to_string()));
    app.objective_mut(0).unwrap().set_content("b".to_string());
    assert_eq!(app.objectives()[0].content(), "b");
    assert!(app.objective_mut(1).is_none());
}
