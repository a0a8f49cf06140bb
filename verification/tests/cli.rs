use smart_manager_core::app_core::App;
use smart_manager_core::cli::{
    category_of_word, cmd_answer, cmd_complete, cmd_list, cmd_met, cmd_tag, command_kind, is_mutating, objective_text,
    parse_category, parse_id, parse_index, parse_priority, priority_label, priority_of_word, set_objective_start,
    set_objective_step, split_command, CommandKind,
};
use smart_manager_core::days::Days;
use smart_manager_core::questions::{ActionCategory, ActionPoint, Objective, QuestionPriority, Tag};
use smart_manager_core::text::trim;
use smart_manager_core::writer::gantt::DayText;

fn days(f: f32) -> Days {
    Days::from_bits(f.to_bits())
}

fn sample_app() -> App {
    let mut app = App::new();
    let mut o = Objective::new("Write report".to_string());
    let q = o.add_question("What to say?".to_string(), QuestionPriority::High, None);
    q.push_action(ActionPoint::new("Outline".to_string(), ActionCategory::Writing, days(1.5)));
    app.push_objective(o);
    app
}

#[test]
fn command_words_are_recognised() {
    assert_eq!(command_kind("/help"), CommandKind::Help);
    assert_eq!(command_kind("/quit"), CommandKind::Quit);
    assert_eq!(command_kind("/exit"), CommandKind::Quit);
    assert_eq!(command_kind("/list"), CommandKind::List);
    assert_eq!(command_kind("/set"), CommandKind::SetObjective);
    assert_eq!(command_kind("/load"), CommandKind::Load);
    assert_eq!(command_kind("/save"), CommandKind::Save);
    assert_eq!(command_kind("/dashboard"), CommandKind::Dashboard);
    assert_eq!(command_kind("/complete"), CommandKind::Complete);
    assert_eq!(command_kind("/answer"), CommandKind::Answer);
    assert_eq!(command_kind("/met"), CommandKind::Met);
    assert_eq!(command_kind("/tag"), CommandKind::Tag);
    assert_eq!(command_kind("list"), CommandKind::Unknown);
}

#[test]
fn split_command_trims_the_argument() {
    assert_eq!(split_command("/tag 0   work  "), ("/tag".to_string(), "0   work".to_string()));
    assert_eq!(split_command("/list"), ("/list".to_string(), String::new()));
}

#[test]
fn mutating_commands_are_the_editing_ones() {
    for line in ["/set objective x", "/load f", "/complete 0.0.0", "/answer 0.0", "/met 0", "/tag 0 x"] {
        assert!(is_mutating(line), "{line}");
    }
    for line in ["/list", "/save f", "/dashboard", "/help", "/setx"] {
        assert!(!is_mutating(line), "{line}");
    }
}

#[test]
fn priority_words_parse_case_insensitively() {
    assert_eq!(parse_priority("  HIGH "), Some(QuestionPriority::High));
    assert_eq!(parse_priority("c"), Some(QuestionPriority::Critical));
    assert_eq!(parse_priority(""), Some(QuestionPriority::Medium));
    assert_eq!(parse_priority("Lt"), Some(QuestionPriority::LongTerm));
    assert_eq!(parse_priority("urgent"), None);
    assert_eq!(priority_of_word("HIGH"), None);
    assert_eq!(priority_label(&QuestionPriority::LongTerm), "LongTerm");
}

#[test]
fn category_words_parse_case_insensitively() {
    assert_eq!(parse_category(" Code"), Some(ActionCategory::Programming));
    assert_eq!(parse_category(""), Some(ActionCategory::Writing));
    assert_eq!(parse_category("MNG"), Some(ActionCategory::Managing));
    assert_eq!(parse_category("pres"), Some(ActionCategory::Presentation));
    assert_eq!(parse_category("x"), None);
    assert_eq!(category_of_word("qa"), Some(ActionCategory::Qa));
}

#[test]
fn indices_parse_like_usize() {
    assert_eq!(parse_index("42"), Some(42));
    assert_eq!(parse_index("+7"), Some(7));
    assert_eq!(parse_index("+"), None);
    assert_eq!(parse_index(""), None);
    assert_eq!(parse_index("-1"), None);
    assert_eq!(parse_index("1a"), None);
    assert_eq!(parse_index("18446744073709551615"), Some(usize::MAX));
    assert_eq!(parse_index("18446744073709551616"), None);
}

#[test]
fn dotted_ids_parse_into_numbers() {
    assert_eq!(parse_id("1.0.2"), Some(vec![1, 0, 2]));
    assert_eq!(parse_id("3"), Some(vec![3]));
    assert_eq!(parse_id(""), None);
    assert_eq!(parse_id("1..2"), None);
    assert_eq!(parse_id("1.x"), None);
    assert_eq!(parse_id("1."), None);
}

#[test]
fn set_objective_needs_the_subcommand_and_text() {
    assert_eq!(objective_text("objective  Ship it "), Some("Ship it".to_string()));
    assert_eq!(objective_text("objective"), None);
    assert_eq!(objective_text("objective   "), None);
    assert_eq!(objective_text("question x"), None);
}

#[test]
fn complete_marks_the_action() {
    let mut app = sample_app();
    assert_eq!(cmd_complete(&mut app, "0.0"), "usage: /complete <obj.question.action>");
    assert_eq!(cmd_complete(&mut app, "0.0.5"), "not found: [0.0.5]");
    assert!(!app.objectives()[0].questions()[0].actions()[0].completed());
    assert_eq!(cmd_complete(&mut app, "0.0.0"), "marked [0.0.0] complete");
    assert!(app.objectives()[0].questions()[0].actions()[0].completed());
}

#[test]
fn answer_is_refused_while_actions_are_open() {
    let mut app = sample_app();
    assert_eq!(
        cmd_answer(&mut app, "0.0"),
        "cannot answer: cannot mark question answered: 1 action(s) still incomplete"
    );
    assert!(!app.objectives()[0].questions()[0].answered());
    cmd_complete(&mut app, "0.0.0");
    assert_eq!(cmd_answer(&mut app, "0.0"), "marked [0.0] answered");
    assert!(app.objectives()[0].questions()[0].answered());
    assert_eq!(cmd_answer(&mut app, "1.0"), "not found: [1.0]");
    assert_eq!(cmd_answer(&mut app, "x"), "usage: /answer <obj.question>");
}

#[test]
fn met_is_refused_while_questions_are_open() {
    let mut app = sample_app();
    assert_eq!(cmd_met(&mut app, "0"), "cannot mark met: cannot mark objective met: 1 question(s) still unanswered");
    cmd_complete(&mut app, "0.0.0");
    cmd_answer(&mut app, "0.0");
    assert_eq!(cmd_met(&mut app, "0"), "marked [0] met");
    assert!(app.objectives()[0].met());
    assert_eq!(cmd_met(&mut app, "3"), "not found: [3]");
    assert_eq!(cmd_met(&mut app, "0.1"), "usage: /met <obj>");
}

#[test]
fn tag_command_reports_each_outcome() {
    let mut app = sample_app();
    assert_eq!(cmd_tag(&mut app, "0"), "usage: /tag <obj> <name>");
    assert_eq!(cmd_tag(&mut app, "x work"), "invalid index: x");
    assert_eq!(cmd_tag(&mut app, "0   "), "tag name required");
    assert_eq!(cmd_tag(&mut app, "0  work "), "tagged [0] with work");
    assert_eq!(cmd_tag(&mut app, "0 work"), "[0] already has tag work");
    assert_eq!(cmd_tag(&mut app, "4 work"), "not found: [4]");
    assert!(app.objectives()[0].has_tag("work"));
    assert_eq!(app.objectives()[0].tags(), &[Tag::new("work")]);
}

#[test]
fn list_shows_every_item_with_its_id() {
    let mut app = sample_app();
    app.add_tag(0, Tag::new("a")).unwrap();
    app.add_tag(0, Tag::new("b")).unwrap();
    let labels = vec![DayText { days: days(1.5), text: "1.5".to_string() }];
    let out = cmd_list(&app, &labels);
    assert_eq!(
        out,
        "[ ] [0] Write report #a,b\n  [ ] [0.0] What to say? (High)\n    [ ] [0.0.0] Outline (1.5d, writing)\n"
    );
    assert_eq!(cmd_list(&App::new(), &labels), "(no objectives)\n");
}

#[test]
fn trim_removes_unicode_white_space() {
    assert_eq!(trim("\u{3000} a b \t\n"), "a b");
    assert_eq!(trim("   "), "");
}

#[test]
fn printed_ids_read_back() {
    for ns in [vec![0usize], vec![12, 0, 305], vec![7, 7]] {
        let text: Vec<String> = ns.iter().map(|n| n.to_string()).collect();
        assert_eq!(parse_id(&text.join(".")), Some(ns.clone()));
    }
}

#[test]
fn editing_words_are_exactly_the_mutating_ones() {
    for word in ["/help", "/quit", "/exit", "/list", "/set", "/load", "/save", "/dashboard", "/complete", "/answer", "/met", "/tag", "/x"] {
        let editing = matches!(
            command_kind(word),
            CommandKind::SetObjective
                | CommandKind::Load
                | CommandKind::Complete
                | CommandKind::Answer
                | CommandKind::Met
                | CommandKind::Tag
        );
        assert_eq!(is_mutating(word), editing, "{word}");
    }
}

#[test]
fn guarded_edits_keep_the_app_valid() {
    let mut app = sample_app();
    cmd_tag(&mut app, "0 work");
    cmd_complete(&mut app, "0.0.0");
    cmd_answer(&mut app, "0.0");
    cmd_met(&mut app, "0");
    assert!(app.objectives()[0].met());
    assert!(app.validate().is_empty());
}

fn run_entry(oi: usize, text: &str, answers: &[Option<&str>], time: f32) -> (Vec<String>, Objective) {
    let (mut state, first) = set_objective_start(oi, text.to_string());
    let mut prompts = vec![first];
    for a in answers {
        let (next, ask) = set_objective_step(state, a.map(|s| s.to_string()), days(time));
        state = next;
        match ask {
            Some(p) => prompts.push(p),
            None => break,
        }
    }
    (prompts, state.into_objective())
}

#[test]
fn entering_an_objective_asks_in_order_and_applies_defaults() {
    let (prompts, o) = run_entry(
        3,
        "Ship",
        &[Some("Why?"), Some("HIGH"), Some("Draft"), Some("nonsense"), Some("2.5"), Some(""), Some("How?"), None, None, None],
        2.5,
    );
    assert_eq!(
        prompts,
        vec![
            "  q[3.0]> ",
            "    priority [Critical/High/Medium/Low/LongTerm] (Medium): ",
            "    a[3.0.0]> ",
            "      category [Writing/Managing/Qa/Analysis/Research/Programming/Presentation] (Writing): ",
            "      required time in days (1.0): ",
            "    a[3.0.1]> ",
            "  q[3.1]> ",
            "    priority [Critical/High/Medium/Low/LongTerm] (Medium): ",
            "    a[3.1.0]> ",
            "  q[3.2]> ",
        ]
    );
    assert_eq!(o.content(), "Ship");
    assert_eq!(o.questions().len(), 2);
    let q0 = &o.questions()[0];
    assert_eq!((q0.id(), q0.content(), q0.priority()), (0, "Why?", &QuestionPriority::High));
    assert_eq!(q0.actions()[0].content(), "Draft");
    assert_eq!(q0.actions()[0].category(), &ActionCategory::Writing);
    assert_eq!(f32::from_bits(q0.actions()[0].required_time().to_bits()), 2.5);
    let q1 = &o.questions()[1];
    assert_eq!((q1.id(), q1.priority()), (1, &QuestionPriority::Medium));
    assert!(q1.actions().is_empty());
}

#[test]
fn entering_stops_at_an_empty_first_question() {
    let (prompts, o) = run_entry(0, "Empty", &[Some("")], 1.0);
    assert_eq!(prompts, vec!["  q[0.0]> "]);
    assert!(o.questions().is_empty());
}
