use smart_manager_core::days::Days;
use smart_manager_core::priority::Priority;
use smart_manager_core::questions::{ActionCategory, ActionPoint, Objective, QuestionPriority, Tag};
use smart_manager_core::writer::gantt::{
    escape_table, grouped_sorted, render_ascii, render_markdown, sanitize_mermaid, DayText, GanttTask,
};
use smart_manager_core::writer::objectives_to_gantt_tasks;

fn days(f: f32) -> Days {
    Days::from_bits(f.to_bits())
}

fn float(d: Days) -> f32 {
    f32::from_bits(d.to_bits())
}

fn format_days(d: f32) -> String {
    if !d.is_finite() {
        return "0".to_string();
    }
    if (d - d.trunc()).abs() < f32::EPSILON {
        format!("{}", d as i64)
    } else {
        format!("{:.1}", d)
    }
}

fn make_bar(d: f32, max: f32) -> String {
    if max <= 0.0 || !d.is_finite() || d <= 0.0 {
        return String::new();
    }
    let n = ((d / max) * 40.0).round() as usize;
    "#".repeat(n.clamp(1, 40))
}

fn remaining_of(o: &Objective) -> f32 {
    o.questions()
        .iter()
        .filter(|q| !q.answered())
        .map(|q| q.actions().iter().filter(|a| !a.completed()).map(|a| float(a.required_time())).sum::<f32>())
        .sum()
}

fn task(name: &str, d: f32, priority: Priority, group: Option<&str>) -> GanttTask {
    GanttTask::new(name.to_string(), days(d), priority, group.map(|g| g.to_string()))
}

fn obj_with_question(name: &str, q_text: &str, priority: QuestionPriority, d: f32) -> Objective {
    let mut o = Objective::new(name.to_string());
    let q = o.add_question(q_text.to_string(), priority, None);
    q.push_action(ActionPoint::new("a".to_string(), ActionCategory::Writing, days(d)));
    o
}

fn ascii(tasks: &[GanttTask]) -> String {
    let max = tasks.iter().map(|t| float(t.days)).fold(0.0_f32, f32::max);
    let labels: Vec<DayText> =
        tasks.iter().map(|t| DayText { days: t.days, text: format_days(float(t.days)) }).collect();
    let bars: Vec<DayText> = tasks.iter().map(|t| DayText { days: t.days, text: make_bar(float(t.days), max) }).collect();
    render_ascii(tasks, &labels, &bars)
}

fn render_ascii_objectives(objectives: &[Objective]) -> String {
    let remaining: Vec<Days> = objectives.iter().map(|o| days(remaining_of(o))).collect();
    let tasks = objectives_to_gantt_tasks(objectives, &remaining);
    ascii(&tasks)
}

fn render_markdown_objectives(objectives: &[Objective]) -> String {
    let mut labels: Vec<DayText> = Vec::new();
    let mut question_days: Vec<Vec<Days>> = Vec::new();
    for o in objectives {
        let mut per_question = Vec::new();
        for q in o.questions() {
            let total: f32 = q.actions().iter().map(|a| float(a.required_time())).sum();
            per_question.push(days(total));
            labels.push(DayText { days: days(total), text: format_days(total) });
            let shown = days(total).clamp_non_negative();
            labels.push(DayText { days: shown, text: format_days(float(shown)) });
            for a in q.actions() {
                let t = float(a.required_time());
                labels.push(DayText { days: a.required_time(), text: format_days(t) });
            }
        }
        question_days.push(per_question);
    }
    render_markdown(objectives, &question_days, &labels)
}

#[test]
fn test_render_ascii_with_no_tasks_shows_empty_message() {
    let out = render_ascii_objectives(&[]);
    assert!(out.contains("(no tasks)"));
}

#[test]
fn test_render_ascii_includes_section_label() {
    let mut o = obj_with_question("X", "q", QuestionPriority::High, 1.0);
    o.add_tag(Tag::new("work"));
    let out = render_ascii_objectives(&[o]);
    assert!(out.contains("[work]"));
}

#[test]
fn test_render_ascii_with_no_group_uses_ungrouped() {
    let o = obj_with_question("Floater", "q", QuestionPriority::Medium, 2.0);
    let out = render_ascii_objectives(&[o]);
    assert!(out.contains("[Ungrouped]"));
}

#[test]
fn test_render_ascii_orders_within_section_by_priority_desc() {
    let tasks = vec![task("LowFirst", 1.0, Priority::Low, Some("g")), task("CritSecond", 1.0, Priority::Critical, Some("g"))];
    let out = ascii(&tasks);
    let crit = out.find("CritSecond").unwrap();
    let low = out.find("LowFirst").unwrap();
    assert!(crit < low);
}

#[test]
fn test_render_ascii_uses_only_ascii_chars() {
    let mut o = obj_with_question("Foo", "q", QuestionPriority::High, 2.5);
    o.add_tag(Tag::new("work"));
    let out = render_ascii_objectives(&[o]);
    assert!(out.is_ascii(), "ASCII output must contain only ASCII");
}

#[test]
fn test_render_markdown_emits_mermaid_block() {
    let o = obj_with_question("Ship MVP", "q", QuestionPriority::Medium, 3.0);
    let out = render_markdown_objectives(&[o]);
    assert!(out.starts_with("```mermaid\n"));
    assert!(out.contains("\ngantt\n"));
    assert!(out.contains("section Ship MVP"));
}

#[test]
fn test_render_markdown_includes_question_id_label_on_bars() {
    let o = obj_with_question("Obj", "What is X", QuestionPriority::Medium, 2.0);
    let out = render_markdown_objectives(&[o]);
    assert!(out.contains("[Q0] What is X"), "expected [Q0] label, got: {out}");
}

#[test]
fn test_render_markdown_critical_question_gets_crit_tag() {
    let o = obj_with_question("Obj", "q", QuestionPriority::Critical, 1.0);
    let out = render_markdown_objectives(&[o]);
    assert!(out.contains(":crit, "));
}

#[test]
fn test_render_markdown_answered_question_gets_done_tag() {
    let mut o = Objective::new("Obj".to_string());
    let q = o.add_question("q".to_string(), QuestionPriority::Medium, None);
    let mut a = ActionPoint::new("a".to_string(), ActionCategory::Writing, days(1.0));
    a.set_completed(true);
    q.push_action(a);
    q.set_answered(true).unwrap();
    let out = render_markdown_objectives(&[o]);
    assert!(out.contains("done, "), "expected done tag, got: {out}");
}

#[test]
fn test_render_markdown_includes_reference_table() {
    let o = obj_with_question("Obj", "q", QuestionPriority::Medium, 1.0);
    let out = render_markdown_objectives(&[o]);
    assert!(out.contains("## Reference"));
    assert!(out.contains("### Obj"));
    assert!(out.contains("| ID |"));
    assert!(out.contains("| Q0 |"));
}

#[test]
fn test_render_markdown_orders_by_priority_then_singletons_first() {
    let mut o = Objective::new("Obj".to_string());
    let med_id = o.add_question("Med".to_string(), QuestionPriority::Medium, None).id();
    let _high_with_prereq = o.add_question("HighWithPrereq".to_string(), QuestionPriority::High, Some(med_id)).id();
    let _high_solo = o.add_question("HighSolo".to_string(), QuestionPriority::High, None).id();
    let out = render_markdown_objectives(&[o]);
    let solo = out.find("[Q2] HighSolo").expect("solo missing");
    let med = out.find("[Q0] Med").expect("med missing");
    let leaf = out.find("[Q1] HighWithPrereq").expect("leaf missing");
    assert!(
        solo < med && med < leaf,
        "expected solo high then med (prereq) then high leaf, got order: solo={solo} med={med} leaf={leaf}"
    );
}

#[test]
fn test_render_markdown_chains_dependent_via_after_prereq() {
    let mut o = Objective::new("Obj".to_string());
    let p = o.add_question("Root".to_string(), QuestionPriority::Medium, None).id();
    o.add_question("Leaf".to_string(), QuestionPriority::High, Some(p));
    let out = render_markdown_objectives(&[o]);
    assert!(out.contains(":t0, 2025-01-01"));
    assert!(out.contains("after t0, "));
}

#[test]
fn test_render_markdown_sanitizes_colons_in_question_text() {
    let o = obj_with_question("Obj", "A: bad name", QuestionPriority::Low, 1.0);
    let out = render_markdown_objectives(&[o]);
    assert!(out.contains("[Q0] A  bad name"));
}

#[test]
fn test_render_markdown_table_strikes_answered_question() {
    let mut o = Objective::new("Obj".to_string());
    let q = o.add_question("Done thing".to_string(), QuestionPriority::Medium, None);
    q.set_answered(true).unwrap();
    let out = render_markdown_objectives(&[o]);
    assert!(out.contains("~~Done thing~~"));
}

#[test]
fn test_render_markdown_table_marks_action_completion_with_checkbox_only() {
    let mut o = Objective::new("Obj".to_string());
    let q = o.add_question("q".to_string(), QuestionPriority::Medium, None);
    let mut done = ActionPoint::new("done step".to_string(), ActionCategory::Writing, days(1.0));
    done.set_completed(true);
    q.push_action(done);
    q.push_action(ActionPoint::new("open step".to_string(), ActionCategory::Writing, days(1.0)));
    let out = render_markdown_objectives(&[o]);
    assert!(out.contains("[x] done step"));
    assert!(out.contains("[ ] open step"));
    assert!(!out.contains("~~[x]"), "completed action should not be wrapped in strikethrough");
}

#[test]
fn test_render_markdown_table_marks_met_objective() {
    let mut o = Objective::new("Done obj".to_string());
    let q = o.add_question("q".to_string(), QuestionPriority::Medium, None);
    q.set_answered(true).unwrap();
    o.set_met(true).unwrap();
    let out = render_markdown_objectives(&[o]);
    assert!(out.contains("~~Done obj~~ (met)"));
}

// ---------------------------------------------------------------------------

#[test]
fn markdown_chart_line_has_exact_shape() {
    let o = obj_with_question("Obj", "Why", QuestionPriority::Medium, 2.5);
    let out = render_markdown_objectives(&[o]);
    assert!(out.contains("    section Obj\n"), "{out}");
    assert!(out.contains("    [Q0] Why :t0, 2025-01-01, 2.5d\n"), "{out}");
    assert!(out.contains("| Q0 | Why | Medium | 2.5 | open | [ ] a (2.5d, writing) |\n"), "{out}");
}

#[test]
fn markdown_without_questions_has_no_chart_rows() {
    let o = Objective::new("Empty".to_string());
    let out = render_markdown_objectives(&[o]);
    assert!(!out.contains("    section Empty"));
    assert!(!out.contains("### Empty"));
    assert!(out.contains("## Reference"));
}

#[test]
fn ascii_shows_letters_days_and_bars() {
    let tasks = vec![task("Big", 4.0, Priority::High, Some("g")), task("Small", 1.0, Priority::High, Some("g"))];
    let out = ascii(&tasks);
    assert!(out.starts_with("SCHEDULE\n========\n\n[g]\n"), "{out}");
    assert!(out.contains(&"#".repeat(40)), "{out}");
    assert!(out.contains(&format!(" {} ", "#".repeat(10))), "{out}");
    assert!(out.contains("| H "), "{out}");
}

#[test]
fn sections_are_ordered_by_score_sum_then_first_appearance() {
    let tasks = vec![
        task("a", 1.0, Priority::Low, Some("low")),
        task("b", 1.0, Priority::Critical, Some("crit")),
        task("c", 1.0, Priority::Low, None),
    ];
    let sections = grouped_sorted(&tasks);
    let names: Vec<&str> = sections.iter().map(|(n, _)| n.as_str()).collect();
    assert_eq!(names, vec!["crit", "low", "Ungrouped"]);
    assert_eq!(sections[0].1, vec![1]);
}

#[test]
fn sanitize_and_escape_replace_breaking_characters() {
    assert_eq!(sanitize_mermaid("a:b,c\nd\re"), "a b c d e");
    assert_eq!(escape_table("a|b\nc"), "a\\|b c");
}
