use smart_manager_core::days::Days;
use smart_manager_core::priority::Priority;
use smart_manager_core::writer::gantt::{DayText, GanttTask};
use smart_manager_core::writer::todo::{html_escape, priority_class, render, TodoFormat};

fn days(f: f32) -> Days {
    Days::from_bits(f.to_bits())
}

fn format_days(d: f32) -> String {
    if !d.is_finite() {
        return "0".to_string();
    }
    if (d - d.trunc()).abs() < f32::EPSILON {
        format!("{}", d as i64)
    } else {
        format!("{:.1}", d)
    }
}

fn task(name: &str, d: f32, priority: Priority, group: Option<&str>) -> GanttTask {
    GanttTask::new(name.to_string(), days(d), priority, group.map(|g| g.to_string()))
}

fn render_tasks(tasks: &[GanttTask], format: TodoFormat) -> String {
    let labels: Vec<DayText> = tasks
        .iter()
        .map(|t| DayText { days: t.days, text: format_days(f32::from_bits(t.days.to_bits())) })
        .collect();
    render(tasks, format, &labels)
}

#[test]
fn test_render_markdown_with_no_tasks_shows_empty_message() {
    let out = render_tasks(&[], TodoFormat::Markdown);
    assert!(out.starts_with("# TODO"));
    assert!(out.contains("(no tasks)"));
}

#[test]
fn test_render_markdown_emits_h2_per_section() {
    let tasks = vec![task("A", 1.0, Priority::High, Some("work")), task("B", 1.0, Priority::Low, Some("home"))];
    let out = render_tasks(&tasks, TodoFormat::Markdown);
    assert!(out.contains("## work"));
    assert!(out.contains("## home"));
}

#[test]
fn test_render_markdown_emits_unchecked_box_for_each_task() {
    let tasks = vec![task("Foo", 2.0, Priority::Medium, Some("g"))];
    let out = render_tasks(&tasks, TodoFormat::Markdown);
    assert!(out.contains("- [ ] **[Medium]** Foo (2d)"));
}

#[test]
fn test_render_markdown_orders_within_section_by_priority_desc() {
    let tasks = vec![task("LowFirst", 1.0, Priority::Low, Some("g")), task("CritSecond", 1.0, Priority::Critical, Some("g"))];
    let out = render_tasks(&tasks, TodoFormat::Markdown);
    let crit = out.find("CritSecond").unwrap();
    let low = out.find("LowFirst").unwrap();
    assert!(crit < low);
}

#[test]
fn test_render_markdown_with_no_group_uses_ungrouped() {
    let tasks = vec![task("Floater", 2.0, Priority::Medium, None)];
    let out = render_tasks(&tasks, TodoFormat::Markdown);
    assert!(out.contains("## Ungrouped"));
}

#[test]
fn test_render_html_with_no_tasks_emits_doctype_and_empty_message() {
    let out = render_tasks(&[], TodoFormat::Html);
    assert!(out.to_lowercase().starts_with("<!doctype html>"));
    assert!(out.contains("(no tasks)"));
    assert!(out.trim_end().ends_with("</html>"));
}

#[test]
fn test_render_html_emits_checkbox_input() {
    let tasks = vec![task("Foo", 1.0, Priority::High, Some("work"))];
    let out = render_tasks(&tasks, TodoFormat::Html);
    assert!(out.contains("<input type=\"checkbox\">"));
    assert!(out.contains("Foo"));
}

#[test]
fn test_render_html_uses_priority_class() {
    let tasks = vec![task("X", 1.0, Priority::Critical, Some("g"))];
    let out = render_tasks(&tasks, TodoFormat::Html);
    assert!(out.contains("priority-critical"));
}

#[test]
fn test_render_html_escapes_unsafe_characters_in_name() {
    let tasks = vec![task("<script>alert(\"x\")</script>", 1.0, Priority::Low, None)];
    let out = render_tasks(&tasks, TodoFormat::Html);
    assert!(!out.contains("<script>"));
    assert!(out.contains("&lt;script&gt;"));
    assert!(out.contains("&quot;x&quot;"));
}

#[test]
fn test_render_html_escapes_section_label() {
    let tasks = vec![task("X", 1.0, Priority::Low, Some("a&b"))];
    let out = render_tasks(&tasks, TodoFormat::Html);
    assert!(out.contains("<h2>a&amp;b</h2>"));
}

// ---------------------------------------------------------------------------

#[test]
fn markdown_lists_sections_in_full() {
    let tasks = vec![task("Foo", 1.0, Priority::High, None)];
    let out = render_tasks(&tasks, TodoFormat::Markdown);
    assert_eq!(out, "# TODO\n\n## Ungrouped\n\n- [ ] **[High]** Foo (1d)\n\n");
}

#[test]
fn html_line_has_priority_label_name_and_days() {
    let tasks = vec![task("Foo", 1.5, Priority::Low, Some("g"))];
    let out = render_tasks(&tasks, TodoFormat::Html);
    assert!(out.contains(
        "<li><input type=\"checkbox\"><span class=\"priority priority-low\">Low</span>Foo<span class=\"days\">(1.5d)</span></li>\n"
    ));
    assert!(out.contains("<section>\n<h2>g</h2>\n<ul>\n"));
}

#[test]
fn html_escape_replaces_each_markup_character() {
    assert_eq!(html_escape("a&b<c>d\"e'f"), "a&amp;b&lt;c&gt;d&quot;e&#39;f");
    assert_eq!(html_escape("plain"), "plain");
    let escaped = html_escape("<<>>\"'");
    assert!(!escaped.contains('<') && !escaped.contains('>') && !escaped.contains('"') && !escaped.contains('\''));
}

#[test]
fn priority_classes_name_each_priority() {
    assert_eq!(priority_class(Priority::Critical), "priority-critical");
    assert_eq!(priority_class(Priority::High), "priority-high");
    assert_eq!(priority_class(Priority::Medium), "priority-medium");
    assert_eq!(priority_class(Priority::Low), "priority-low");
    assert_eq!(priority_class(Priority::LongTerm), "priority-longterm");
}
