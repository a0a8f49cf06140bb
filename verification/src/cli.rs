//! The decisions of the command prompt: how a line is read, how words name
//! priorities and categories, how ids are parsed, and what each editing
//! command does to the application and answers.
use crate::app_core::{has_action, has_objective, has_question, with_action, with_question, App};
use crate::writer::gantt::{day_label, day_text, day_text_views, opt_string_view, DayText};
use crate::days::Days;
use crate::questions::{
    action_views, incomplete_count, question_pushed, question_views, tag_added, tag_views, ActionPoint, Objective, Question, unanswered_count, ActionCategory, ActionView, ObjectiveError, ObjectiveView,
    QuestionError, QuestionPriority, QuestionView, Tag,
};
use crate::text::{
    chars_of, concat_all, decimal, digit_char, join_with, lemma_concat_all_step, lowercase, lowercase_of, push_decimal, push_str, split_once, split_once_of, str_eq,
    trim, trim_of,
};
use vstd::prelude::*;

verus! {

/// What a command word asks for.
#[derive(Debug, Clone, Copy, PartialEq, Eq, Structural)]
pub enum CommandKind {
    Help,
    Quit,
    List,
    SetObjective,
    Load,
    Save,
    Dashboard,
    Complete,
    Answer,
    Met,
    Tag,
    Unknown,
}

pub open spec fn command_kind_of(word: Seq<char>) -> CommandKind {
    if word == "/help"@ {
        CommandKind::Help
    } else if word == "/quit"@ || word == "/exit"@ {
        CommandKind::Quit
    } else if word == "/list"@ {
        CommandKind::List
    } else if word == "/set"@ {
        CommandKind::SetObjective
    } else if word == "/load"@ {
        CommandKind::Load
    } else if word == "/save"@ {
        CommandKind::Save
    } else if word == "/dashboard"@ {
        CommandKind::Dashboard
    } else if word == "/complete"@ {
        CommandKind::Complete
    } else if word == "/answer"@ {
        CommandKind::Answer
    } else if word == "/met"@ {
        CommandKind::Met
    } else if word == "/tag"@ {
        CommandKind::Tag
    } else {
        CommandKind::Unknown
    }
}

/// What the command word asks for.
pub fn command_kind(word: &str) -> (k: CommandKind)
    ensures
        k == command_kind_of(word@),
{
    if str_eq(word, "/help") {
        CommandKind::Help
    } else if str_eq(word, "/quit") || str_eq(word, "/exit") {
        CommandKind::Quit
    } else if str_eq(word, "/list") {
        CommandKind::List
    } else if str_eq(word, "/set") {
        CommandKind::SetObjective
    } else if str_eq(word, "/load") {
        CommandKind::Load
    } else if str_eq(word, "/save") {
        CommandKind::Save
    } else if str_eq(word, "/dashboard") {
        CommandKind::Dashboard
    } else if str_eq(word, "/complete") {
        CommandKind::Complete
    } else if str_eq(word, "/answer") {
        CommandKind::Answer
    } else if str_eq(word, "/met") {
        CommandKind::Met
    } else if str_eq(word, "/tag") {
        CommandKind::Tag
    } else {
        CommandKind::Unknown
    }
}

/// A prompt line split into its command word and its argument text: the
/// word runs to the first space, and the argument is the rest, trimmed.
pub open spec fn command_parts_of(line: Seq<char>) -> (Seq<char>, Seq<char>) {
    match split_once_of(line, ' ') {
        Some((c, r)) => (c, trim_of(r)),
        None => (line, Seq::empty()),
    }
}

/// Splits a prompt line into its command word and its argument text.
pub fn split_command(line: &str) -> (r: (String, String))
    ensures
        (r.0@, r.1@) == command_parts_of(line@),
{
    match split_once(line, ' ') {
        Some((c, rest)) => {
            let t = trim(rest.as_str());
            (c, t)
        },
        None => {
            let mut c = String::new();
            crate::text::push_str(&mut c, line);
            assert(c@ =~= line@);
            (c, String::new())
        },
    }
}

/// Whether a command word changes the application's state.
pub open spec fn mutating_word(word: Seq<char>) -> bool {
    word == "/set"@ || word == "/load"@ || word == "/complete"@ || word == "/answer"@ || word == "/met"@
        || word == "/tag"@
}

/// Whether the prompt line runs a command that changes the application's
/// state, judged by the text before its first space.
pub fn is_mutating(line: &str) -> (b: bool)
    ensures
        b == mutating_word(
            match split_once_of(line@, ' ') {
                Some((c, _)) => c,
                None => line@,
            },
        ),
{
    let word = match split_once(line, ' ') {
        Some((c, _)) => c,
        None => {
            let mut c = String::new();
            crate::text::push_str(&mut c, line);
            assert(c@ =~= line@);
            c
        },
    };
    let w = word.as_str();
    str_eq(w, "/set") || str_eq(w, "/load") || str_eq(w, "/complete") || str_eq(w, "/answer") || str_eq(w, "/met")
        || str_eq(w, "/tag")
}

/// A command word changes the application's state exactly when it names
/// one of the editing commands: setting an objective, loading, completing,
/// answering, marking met, or tagging.
pub proof fn mutating_words_are_editing_commands(word: Seq<char>)
    ensures
        mutating_word(word) <==> match command_kind_of(word) {
            CommandKind::SetObjective | CommandKind::Load | CommandKind::Complete | CommandKind::Answer
            | CommandKind::Met | CommandKind::Tag => true,
            _ => false,
        },
{
    reveal_strlit("/help");
    reveal_strlit("/quit");
    reveal_strlit("/exit");
    reveal_strlit("/list");
    reveal_strlit("/set");
    reveal_strlit("/load");
    reveal_strlit("/save");
    reveal_strlit("/dashboard");
    reveal_strlit("/complete");
    reveal_strlit("/answer");
    reveal_strlit("/met");
    reveal_strlit("/tag");
    assert("/help"@[1] != "/quit"@[1]);
    assert("/help"@[1] != "/exit"@[1]);
    assert("/help"@[1] != "/list"@[1]);
    assert("/help"@.len() != "/set"@.len());
    assert("/help"@[1] != "/load"@[1]);
    assert("/help"@[1] != "/save"@[1]);
    assert("/help"@.len() != "/dashboard"@.len());
    assert("/help"@.len() != "/complete"@.len());
    assert("/help"@.len() != "/answer"@.len());
    assert("/help"@.len() != "/met"@.len());
    assert("/help"@.len() != "/tag"@.len());
    assert("/quit"@[1] != "/exit"@[1]);
    assert("/quit"@[1] != "/list"@[1]);
    assert("/quit"@.len() != "/set"@.len());
    assert("/quit"@[1] != "/load"@[1]);
    assert("/quit"@[1] != "/save"@[1]);
    assert("/quit"@.len() != "/dashboard"@.len());
    assert("/quit"@.len() != "/complete"@.len());
    assert("/quit"@.len() != "/answer"@.len());
    assert("/quit"@.len() != "/met"@.len());
    assert("/quit"@.len() != "/tag"@.len());
    assert("/exit"@[1] != "/list"@[1]);
    assert("/exit"@.len() != "/set"@.len());
    assert("/exit"@[1] != "/load"@[1]);
    assert("/exit"@[1] != "/save"@[1]);
    assert("/exit"@.len() != "/dashboard"@.len());
    assert("/exit"@.len() != "/complete"@.len());
    assert("/exit"@.len() != "/answer"@.len());
    assert("/exit"@.len() != "/met"@.len());
    assert("/exit"@.len() != "/tag"@.len());
    assert("/list"@.len() != "/set"@.len());
    assert("/list"@[2] != "/load"@[2]);
    assert("/list"@[1] != "/save"@[1]);
    assert("/list"@.len() != "/dashboard"@.len());
    assert("/list"@.len() != "/complete"@.len());
    assert("/list"@.len() != "/answer"@.len());
    assert("/list"@.len() != "/met"@.len());
    assert("/list"@.len() != "/tag"@.len());
    assert("/set"@.len() != "/load"@.len());
    assert("/set"@.len() != "/save"@.len());
    assert("/set"@.len() != "/dashboard"@.len());
    assert("/set"@.len() != "/complete"@.len());
    assert("/set"@.len() != "/answer"@.len());
    assert("/set"@[1] != "/met"@[1]);
    assert("/set"@[1] != "/tag"@[1]);
    assert("/load"@[1] != "/save"@[1]);
    assert("/load"@.len() != "/dashboard"@.len());
    assert("/load"@.len() != "/complete"@.len());
    assert("/load"@.len() != "/answer"@.len());
    assert("/load"@.len() != "/met"@.len());
    assert("/load"@.len() != "/tag"@.len());
    assert("/save"@.len() != "/dashboard"@.len());
    assert("/save"@.len() != "/complete"@.len());
    assert("/save"@.len() != "/answer"@.len());
    assert("/save"@.len() != "/met"@.len());
    assert("/save"@.len() != "/tag"@.len());
    assert("/dashboard"@.len() != "/complete"@.len());
    assert("/dashboard"@.len() != "/answer"@.len());
    assert("/dashboard"@.len() != "/met"@.len());
    assert("/dashboard"@.len() != "/tag"@.len());
    assert("/complete"@.len() != "/answer"@.len());
    assert("/complete"@.len() != "/met"@.len());
    assert("/complete"@.len() != "/tag"@.len());
    assert("/answer"@.len() != "/met"@.len());
    assert("/answer"@.len() != "/tag"@.len());
    assert("/met"@[1] != "/tag"@[1]);
}

pub open spec fn priority_label_of(p: QuestionPriority) -> Seq<char> {
    match p {
        QuestionPriority::Critical => "Critical"@,
        QuestionPriority::High => "High"@,
        QuestionPriority::Medium => "Medium"@,
        QuestionPriority::Low => "Low"@,
        QuestionPriority::LongTerm => "LongTerm"@,
    }
}

/// The name under which the prompt shows a question priority.
pub fn priority_label(p: &QuestionPriority) -> (s: &'static str)
    ensures
        s@ == priority_label_of(*p),
{
    match p {
        QuestionPriority::Critical => "Critical",
        QuestionPriority::High => "High",
        QuestionPriority::Medium => "Medium",
        QuestionPriority::Low => "Low",
        QuestionPriority::LongTerm => "LongTerm",
    }
}

/// The priority that a lower-case word names; an empty word names Medium.
pub open spec fn priority_word_of(w: Seq<char>) -> Option<QuestionPriority> {
    if w == "critical"@ || w == "c"@ {
        Some(QuestionPriority::Critical)
    } else if w == "high"@ || w == "h"@ {
        Some(QuestionPriority::High)
    } else if w == ""@ || w == "medium"@ || w == "m"@ {
        Some(QuestionPriority::Medium)
    } else if w == "low"@ || w == "l"@ {
        Some(QuestionPriority::Low)
    } else if w == "longterm"@ || w == "long"@ || w == "lt"@ {
        Some(QuestionPriority::LongTerm)
    } else {
        None
    }
}

/// The character in lower case, for the ASCII letters; others unchanged.
pub open spec fn ascii_lower_char(c: char) -> char {
    if 'A' <= c <= 'Z' {
        ((c as u32) + 32) as char
    } else {
        c
    }
}

/// The text with its ASCII letters in lower case.
pub open spec fn ascii_lower(s: Seq<char>) -> Seq<char> {
    s.map_values(|c: char| ascii_lower_char(c))
}

/// Every priority is named by its own label in lower case: `critical`,
/// `high`, `medium`, `low` and `longterm` give Critical, High, Medium, Low
/// and LongTerm; so the words name all five, each by its own name.
pub proof fn priority_words_name_their_priority(p: QuestionPriority)
    ensures
        priority_word_of(ascii_lower(priority_label_of(p))) == Some(p),
{
    reveal_strlit("Critical");
    reveal_strlit("High");
    reveal_strlit("Medium");
    reveal_strlit("Low");
    reveal_strlit("LongTerm");
    reveal_strlit("critical");
    reveal_strlit("c");
    reveal_strlit("high");
    reveal_strlit("h");
    reveal_strlit("");
    reveal_strlit("medium");
    reveal_strlit("m");
    reveal_strlit("low");
    reveal_strlit("l");
    reveal_strlit("longterm");
    reveal_strlit("long");
    reveal_strlit("lt");
    let w = ascii_lower(priority_label_of(p));
    match p {
        QuestionPriority::Critical => {
            assert(w =~= "critical"@);
        },
        QuestionPriority::High => {
            assert(w =~= "high"@);
            assert("high"@.len() != "critical"@.len());
            assert("high"@.len() != "c"@.len());
        },
        QuestionPriority::Medium => {
            assert(w =~= "medium"@);
            assert("medium"@.len() != "critical"@.len());
            assert("medium"@.len() != "c"@.len());
            assert("medium"@.len() != "high"@.len());
            assert("medium"@.len() != "h"@.len());
            assert("medium"@.len() != ""@.len());
        },
        QuestionPriority::Low => {
            assert(w =~= "low"@);
            assert("low"@.len() != "critical"@.len());
            assert("low"@.len() != "c"@.len());
            assert("low"@.len() != "high"@.len());
            assert("low"@.len() != "h"@.len());
            assert("low"@.len() != ""@.len());
            assert("low"@.len() != "medium"@.len());
            assert("low"@.len() != "m"@.len());
        },
        QuestionPriority::LongTerm => {
            assert(w =~= "longterm"@);
            assert("longterm"@[0] != "critical"@[0]);
            assert("longterm"@.len() != "c"@.len());
            assert("longterm"@.len() != "high"@.len());
            assert("longterm"@.len() != "h"@.len());
            assert("longterm"@.len() != ""@.len());
            assert("longterm"@.len() != "medium"@.len());
            assert("longterm"@.len() != "m"@.len());
            assert("longterm"@.len() != "low"@.len());
            assert("longterm"@.len() != "l"@.len());
        },
    }
}

/// The priority that a lower-case word names.
pub fn priority_of_word(w: &str) -> (r: Option<QuestionPriority>)
    ensures
        r == priority_word_of(w@),
{
    if str_eq(w, "critical") || str_eq(w, "c") {
        Some(QuestionPriority::Critical)
    } else if str_eq(w, "high") || str_eq(w, "h") {
        Some(QuestionPriority::High)
    } else if str_eq(w, "") || str_eq(w, "medium") || str_eq(w, "m") {
        Some(QuestionPriority::Medium)
    } else if str_eq(w, "low") || str_eq(w, "l") {
        Some(QuestionPriority::Low)
    } else if str_eq(w, "longterm") || str_eq(w, "long") || str_eq(w, "lt") {
        Some(QuestionPriority::LongTerm)
    } else {
        None
    }
}

/// The priority that the text names, read trimmed and in lower case.
pub fn parse_priority(s: &str) -> (r: Option<QuestionPriority>)
    ensures
        r == priority_word_of(lowercase_of(trim_of(s@))),
{
    let t = trim(s);
    let w = lowercase(t.as_str());
    priority_of_word(w.as_str())
}

/// The category that a lower-case word names; an empty word names Writing.
pub open spec fn category_word_of(w: Seq<char>) -> Option<ActionCategory> {
    if w == ""@ || w == "writing"@ || w == "w"@ {
        Some(ActionCategory::Writing)
    } else if w == "managing"@ || w == "mng"@ {
        Some(ActionCategory::Managing)
    } else if w == "qa"@ || w == "q"@ {
        Some(ActionCategory::Qa)
    } else if w == "analysis"@ || w == "a"@ {
        Some(ActionCategory::Analysis)
    } else if w == "research"@ || w == "r"@ {
        Some(ActionCategory::Research)
    } else if w == "programming"@ || w == "prog"@ || w == "code"@ {
        Some(ActionCategory::Programming)
    } else if w == "presentation"@ || w == "pres"@ {
        Some(ActionCategory::Presentation)
    } else {
        None
    }
}

/// Every category is named by its own name: the word `as_str` gives for a
/// category reads back as that category.
pub proof fn category_words_name_their_category(c: ActionCategory)
    ensures
        category_word_of(c.as_str_of()) == Some(c),
{
    reveal_strlit("writing");
    reveal_strlit("managing");
    reveal_strlit("qa");
    reveal_strlit("analysis");
    reveal_strlit("research");
    reveal_strlit("programming");
    reveal_strlit("presentation");
    reveal_strlit("");
    reveal_strlit("w");
    reveal_strlit("mng");
    reveal_strlit("q");
    reveal_strlit("a");
    reveal_strlit("r");
    reveal_strlit("prog");
    reveal_strlit("code");
    reveal_strlit("pres");
    assert("writing"@.len() != ""@.len());
    assert("managing"@.len() != ""@.len());
    assert("managing"@.len() != "writing"@.len());
    assert("managing"@.len() != "w"@.len());
    assert("qa"@.len() != ""@.len());
    assert("qa"@.len() != "writing"@.len());
    assert("qa"@.len() != "w"@.len());
    assert("qa"@.len() != "managing"@.len());
    assert("qa"@.len() != "mng"@.len());
    assert("analysis"@.len() != ""@.len());
    assert("analysis"@.len() != "writing"@.len());
    assert("analysis"@.len() != "w"@.len());
    assert("analysis"@[0] != "managing"@[0]);
    assert("analysis"@.len() != "mng"@.len());
    assert("analysis"@.len() != "qa"@.len());
    assert("analysis"@.len() != "q"@.len());
    assert("research"@.len() != ""@.len());
    assert("research"@.len() != "writing"@.len());
    assert("research"@.len() != "w"@.len());
    assert("research"@[0] != "managing"@[0]);
    assert("research"@.len() != "mng"@.len());
    assert("research"@.len() != "qa"@.len());
    assert("research"@.len() != "q"@.len());
    assert("research"@[0] != "analysis"@[0]);
    assert("research"@.len() != "a"@.len());
    assert("programming"@.len() != ""@.len());
    assert("programming"@.len() != "writing"@.len());
    assert("programming"@.len() != "w"@.len());
    assert("programming"@.len() != "managing"@.len());
    assert("programming"@.len() != "mng"@.len());
    assert("programming"@.len() != "qa"@.len());
    assert("programming"@.len() != "q"@.len());
    assert("programming"@.len() != "analysis"@.len());
    assert("programming"@.len() != "a"@.len());
    assert("programming"@.len() != "research"@.len());
    assert("programming"@.len() != "r"@.len());
    assert("presentation"@.len() != ""@.len());
    assert("presentation"@.len() != "writing"@.len());
    assert("presentation"@.len() != "w"@.len());
    assert("presentation"@.len() != "managing"@.len());
    assert("presentation"@.len() != "mng"@.len());
    assert("presentation"@.len() != "qa"@.len());
    assert("presentation"@.len() != "q"@.len());
    assert("presentation"@.len() != "analysis"@.len());
    assert("presentation"@.len() != "a"@.len());
    assert("presentation"@.len() != "research"@.len());
    assert("presentation"@.len() != "r"@.len());
    assert("presentation"@.len() != "programming"@.len());
    assert("presentation"@.len() != "prog"@.len());
    assert("presentation"@.len() != "code"@.len());
}

/// The category that a lower-case word names.
pub fn category_of_word(w: &str) -> (r: Option<ActionCategory>)
    ensures
        r == category_word_of(w@),
{
    if str_eq(w, "") || str_eq(w, "writing") || str_eq(w, "w") {
        Some(ActionCategory::Writing)
    } else if str_eq(w, "managing") || str_eq(w, "mng") {
        Some(ActionCategory::Managing)
    } else if str_eq(w, "qa") || str_eq(w, "q") {
        Some(ActionCategory::Qa)
    } else if str_eq(w, "analysis") || str_eq(w, "a") {
        Some(ActionCategory::Analysis)
    } else if str_eq(w, "research") || str_eq(w, "r") {
        Some(ActionCategory::Research)
    } else if str_eq(w, "programming") || str_eq(w, "prog") || str_eq(w, "code") {
        Some(ActionCategory::Programming)
    } else if str_eq(w, "presentation") || str_eq(w, "pres") {
        Some(ActionCategory::Presentation)
    } else {
        None
    }
}

/// The category that the text names, read trimmed and in lower case.
pub fn parse_category(s: &str) -> (r: Option<ActionCategory>)
    ensures
        r == category_word_of(lowercase_of(trim_of(s@))),
{
    let t = trim(s);
    let w = lowercase(t.as_str());
    category_of_word(w.as_str())
}

// ---------------------------------------------------------------------------
// Numbers and dotted ids.

pub open spec fn is_digit(c: char) -> bool {
    '0' <= c <= '9'
}

/// The value of a string of decimal digits.
pub open spec fn digits_value(ds: Seq<char>) -> nat
    decreases ds.len(),
{
    if ds.len() == 0 {
        0
    } else {
        digits_value(ds.drop_last()) * 10 + (ds.last() as int - '0' as int) as nat
    }
}

/// The digits of an unsigned number's text: the text without one leading
/// `+`.
pub open spec fn unsigned_digits(p: Seq<char>) -> Seq<char> {
    if p.len() > 0 && p[0] == '+' {
        p.drop_first()
    } else {
        p
    }
}

/// The index that a text denotes, as `str::parse::<usize>` reads it: an
/// optional `+`, then at least one decimal digit and nothing else, with a
/// value that fits in `usize`.
pub open spec fn index_of_text(p: Seq<char>) -> Option<usize> {
    let ds = unsigned_digits(p);
    if ds.len() == 0 || !(forall|i: int| 0 <= i < ds.len() ==> is_digit(#[trigger] ds[i])) {
        None
    } else if digits_value(ds) > usize::MAX {
        None
    } else {
        Some(digits_value(ds) as usize)
    }
}

proof fn lemma_digits_value_prefix(ds: Seq<char>, i: int)
    requires
        0 <= i <= ds.len(),
        forall|k: int| 0 <= k < ds.len() ==> is_digit(#[trigger] ds[k]),
    ensures
        digits_value(ds.take(i)) <= digits_value(ds),
    decreases ds.len(),
{
    if i < ds.len() {
        assert(ds.drop_last().take(i) =~= ds.take(i));
        assert forall|k: int| 0 <= k < ds.drop_last().len() implies is_digit(#[trigger] ds.drop_last()[k]) by {
            assert(ds.drop_last()[k] == ds[k]);
        }
        lemma_digits_value_prefix(ds.drop_last(), i);
    } else {
        assert(ds.take(i) =~= ds);
    }
}

/// The index that the characters denote, if they denote one.
fn index_of_chars(p: &Vec<char>) -> (r: Option<usize>)
    ensures
        r == index_of_text(p@),
{
    let start: usize = if p.len() > 0 && p[0] == '+' { 1 } else { 0 };
    let ghost ds = unsigned_digits(p@);
    assert(ds =~= p@.subrange(start as int, p@.len() as int));
    if start >= p.len() {
        return None;
    }
    let mut i = start;
    while i < p.len()
        invariant
            start <= i <= p@.len(),
            ds =~= p@.subrange(start as int, p@.len() as int),
            ds == unsigned_digits(p@),
            forall|k: int| 0 <= k < i - start ==> is_digit(#[trigger] ds[k]),
        decreases p@.len() - i,
    {
        if !('0' <= p[i] && p[i] <= '9') {
            assert(ds[i - start] == p@[i as int]);
            assert(!is_digit(ds[i - start]));
            assert(!(forall|k: int| 0 <= k < ds.len() ==> is_digit(#[trigger] ds[k])));
            return None;
        }
        i = i + 1;
    }
    let mut v: usize = 0;
    let mut j = start;
    while j < p.len()
        invariant
            start <= j <= p@.len(),
            ds =~= p@.subrange(start as int, p@.len() as int),
            ds == unsigned_digits(p@),
            forall|k: int| 0 <= k < ds.len() ==> is_digit(#[trigger] ds[k]),
            v == digits_value(ds.take(j - start)),
        decreases p@.len() - j,
    {
        let c = p[j];
        assert(ds[j - start] == c);
        assert(is_digit(ds[j - start]));
        let d = (c as u32 - '0' as u32) as usize;
        assert(d == c as int - '0' as int);
        assert(ds.take(j - start + 1).drop_last() =~= ds.take(j - start));
        assert(ds.take(j - start + 1).last() == c);
        assert(digits_value(ds.take(j - start + 1)) == v * 10 + d);
        proof {
            lemma_digits_value_prefix(ds, j - start + 1);
        }
        assert(digits_value(ds) >= v * 10 + d);
        match v.checked_mul(10) {
            Some(t) => match t.checked_add(d) {
                Some(u) => {
                    v = u;
                },
                None => {
                    return None;
                },
            },
            None => {
                return None;
            },
        }
        j = j + 1;
    }
    assert(ds.take(j - start) =~= ds);
    Some(v)
}

/// The index that the text denotes, as `str::parse::<usize>` reads it.
pub fn parse_index(s: &str) -> (r: Option<usize>)
    ensures
        r == index_of_text(s@),
{
    let v = chars_of(s);
    index_of_chars(&v)
}

/// The pieces of the text between occurrences of `sep`, as `str::split`
/// gives them: one more piece than there are separators.
pub open spec fn split_on(s: Seq<char>, sep: char) -> Seq<Seq<char>>
    decreases s.len(),
{
    if s.len() == 0 {
        seq![Seq::empty()]
    } else {
        let prev = split_on(s.drop_last(), sep);
        if s.last() == sep {
            prev.push(Seq::empty())
        } else {
            prev.update(prev.len() - 1, prev.last().push(s.last()))
        }
    }
}

proof fn lemma_split_on_nonempty(s: Seq<char>, sep: char)
    ensures
        split_on(s, sep).len() >= 1,
    decreases s.len(),
{
    if s.len() > 0 {
        lemma_split_on_nonempty(s.drop_last(), sep);
    }
}

/// The numbers of a dotted id such as `1.0.2`: `None` for empty text or
/// when a piece is not a number.
pub open spec fn parse_id_of(s: Seq<char>) -> Option<Seq<usize>> {
    let pieces = split_on(s, '.');
    if s.len() == 0 || !(forall|i: int| 0 <= i < pieces.len() ==> (#[trigger] index_of_text(pieces[i])) is Some) {
        None
    } else {
        Some(pieces.map_values(|p: Seq<char>| index_of_text(p)->0))
    }
}

/// The numbers of a dotted id.
pub fn parse_id(s: &str) -> (r: Option<Vec<usize>>)
    ensures
        match parse_id_of(s@) {
            Some(ns) => r matches Some(v) && v@ == ns,
            None => r is None,
        },
{
    let cs = chars_of(s);
    if cs.len() == 0 {
        return None;
    }
    let ghost pieces = split_on(s@, '.');
    let mut out: Vec<usize> = Vec::new();
    let mut cur: Vec<char> = Vec::new();
    let mut i: usize = 0;
    while i < cs.len()
        invariant
            i <= cs@.len(),
            cs@ == s@,
            pieces == split_on(s@, '.'),
            out@.len() + 1 == split_on(cs@.take(i as int), '.').len(),
            forall|k: int| 0 <= k < out@.len() ==> index_of_text(#[trigger] split_on(cs@.take(i as int), '.')[k]) == Some(out@[k]),
            cur@ == split_on(cs@.take(i as int), '.').last(),
        decreases cs@.len() - i,
    {
        proof {
            lemma_split_on_nonempty(cs@.take(i as int), '.');
        }
        assert(cs@.take(i + 1).drop_last() =~= cs@.take(i as int));
        let c = cs[i];
        if c == '.' {
            match index_of_chars(&cur) {
                Some(n) => {
                    out.push(n);
                },
                None => {
                    proof {
                        let k = out@.len() as int;
                        assert(split_on(cs@.take(i + 1), '.')[k] == cur@);
                        lemma_split_stable(cs@, '.', i + 1, cs@.len() as int, k);
                        assert(cs@.take(cs@.len() as int) =~= s@);
                        assert(index_of_text(pieces[k]) is None);
                    }
                    return None;
                },
            }
            cur = Vec::new();
        } else {
            cur.push(c);
        }
        i = i + 1;
    }
    assert(cs@.take(i as int) =~= s@);
    proof {
        lemma_split_on_nonempty(s@, '.');
    }
    match index_of_chars(&cur) {
        Some(n) => {
            out.push(n);
            assert forall|k: int| 0 <= k < pieces.len() implies (#[trigger] index_of_text(pieces[k])) is Some by {
                if k < pieces.len() - 1 {
                    assert(index_of_text(pieces[k]) == Some(out@[k]));
                }
            }
            assert(out@ =~= pieces.map_values(|p: Seq<char>| index_of_text(p)->0));
            Some(out)
        },
        None => {
            assert(index_of_text(pieces[pieces.len() - 1]) is None);
            None
        },
    }
}

/// A piece of the split text that a separator has closed stays as it is
/// while more of the text is split.
proof fn lemma_split_stable(s: Seq<char>, sep: char, n: int, m: int, k: int)
    requires
        0 <= n <= m <= s.len(),
        0 <= k < split_on(s.take(n), sep).len() - 1,
    ensures
        split_on(s.take(m), sep).len() >= split_on(s.take(n), sep).len(),
        split_on(s.take(m), sep)[k] == split_on(s.take(n), sep)[k],
    decreases m - n,
{
    if m > n {
        lemma_split_stable(s, sep, n, m - 1, k);
        assert(s.take(m).drop_last() =~= s.take(m - 1));
        lemma_split_on_nonempty(s.take(m - 1), sep);
    }
}

proof fn lemma_decimal_digits(n: nat)
    ensures
        decimal(n).len() > 0,
        forall|i: int| 0 <= i < decimal(n).len() ==> is_digit(#[trigger] decimal(n)[i]),
        digits_value(decimal(n)) == n,
    decreases n,
{
    if n < 10 {
        assert(decimal(n).drop_last() =~= Seq::<char>::empty());
        assert(digit_char(n) as int - '0' as int == n);
        assert(decimal(n).last() == digit_char(n));
        assert(digits_value(decimal(n).drop_last()) == 0);
    } else {
        lemma_decimal_digits(n / 10);
        let d = decimal(n);
        assert(d.drop_last() =~= decimal(n / 10));
        assert forall|i: int| 0 <= i < d.len() implies is_digit(#[trigger] d[i]) by {
            if i < d.len() - 1 {
                assert(d[i] == decimal(n / 10)[i]);
            }
        }
        vstd::arithmetic::div_mod::lemma_fundamental_div_mod(n as int, 10);
        let r = (n % 10) as nat;
        assert(r < 10);
        assert(digit_char(r) as int - '0' as int == r);
        assert(d.last() == digit_char(r));
        assert(digits_value(d) == digits_value(decimal(n / 10)) * 10 + r);
        assert(n == (n / 10) * 10 + r);
    }
}

proof fn lemma_index_of_decimal(n: usize)
    ensures
        index_of_text(decimal(n as nat)) == Some(n),
{
    lemma_decimal_digits(n as nat);
    let d = decimal(n as nat);
    assert(is_digit(d[0]));
    assert(unsigned_digits(d) == d);
}

/// Splitting text without a separator gives the text as its one piece.
proof fn lemma_split_on_plain(t: Seq<char>, sep: char)
    requires
        !t.contains(sep),
    ensures
        split_on(t, sep) == seq![t],
    decreases t.len(),
{
    if t.len() > 0 {
        assert(!t.drop_last().contains(sep)) by {
            if t.drop_last().contains(sep) {
                let k = choose|k: int| 0 <= k < t.drop_last().len() && t.drop_last()[k] == sep;
                assert(t[k] == sep);
            }
        }
        lemma_split_on_plain(t.drop_last(), sep);
        assert(t[t.len() - 1] != sep);
        assert(t.drop_last().push(t.last()) =~= t);
        assert(split_on(t, sep) =~= seq![t]);
    } else {
        assert(t =~= Seq::<char>::empty());
        assert(split_on(t, sep) =~= seq![t]);
    }
}

/// Splitting `s`, a separator and separator-free `t` gives the pieces of
/// `s` and then `t`.
proof fn lemma_split_on_append(s: Seq<char>, sep: char, t: Seq<char>)
    requires
        !t.contains(sep),
    ensures
        split_on(s.push(sep) + t, sep) == split_on(s, sep).push(t),
    decreases t.len(),
{
    if t.len() == 0 {
        assert(s.push(sep) + t =~= s.push(sep));
        assert((s.push(sep)).drop_last() =~= s);
        assert(t =~= Seq::<char>::empty());
    } else {
        assert(!t.drop_last().contains(sep)) by {
            if t.drop_last().contains(sep) {
                let k = choose|k: int| 0 <= k < t.drop_last().len() && t.drop_last()[k] == sep;
                assert(t[k] == sep);
            }
        }
        lemma_split_on_append(s, sep, t.drop_last());
        assert((s.push(sep) + t).drop_last() =~= s.push(sep) + t.drop_last());
        assert(t[t.len() - 1] != sep);
        lemma_split_on_nonempty(s, sep);
        assert(t.drop_last().push(t.last()) =~= t);
        let prev = split_on(s, sep).push(t.drop_last());
        assert(split_on(s.push(sep) + t, sep) == prev.update(prev.len() - 1, prev.last().push(t.last())));
        assert(split_on(s.push(sep) + t, sep) =~= split_on(s, sep).push(t));
    }
}

proof fn lemma_decimal_has_no_dot(n: nat)
    ensures
        !decimal(n).contains('.'),
{
    lemma_decimal_digits(n);
    if decimal(n).contains('.') {
        let k = choose|k: int| 0 <= k < decimal(n).len() && decimal(n)[k] == '.';
        assert(is_digit(decimal(n)[k]));
    }
}

proof fn lemma_split_joined_decimals(ns: Seq<usize>)
    requires
        ns.len() > 0,
    ensures
        split_on(join_with(ns.map_values(|n: usize| decimal(n as nat)), "."@), '.') == ns.map_values(
            |n: usize| decimal(n as nat),
        ),
        join_with(ns.map_values(|n: usize| decimal(n as nat)), "."@).len() > 0,
    decreases ns.len(),
{
    reveal_strlit(".");
    let parts = ns.map_values(|n: usize| decimal(n as nat));
    lemma_decimal_has_no_dot(ns.last() as nat);
    lemma_decimal_digits(ns.last() as nat);
    if ns.len() == 1 {
        lemma_split_on_plain(parts[0], '.');
        assert(parts =~= seq![parts[0]]);
    } else {
        lemma_split_joined_decimals(ns.drop_last());
        let prev = ns.drop_last().map_values(|n: usize| decimal(n as nat));
        assert(parts.drop_last() =~= prev);
        let j = join_with(prev, "."@);
        assert(j + "."@ =~= j.push('.'));
        assert(join_with(parts, "."@) == j + "."@ + parts.last());
        lemma_split_on_append(j, '.', parts.last());
        assert(parts =~= prev.push(parts.last()));
    }
}

/// An id as the prompt shows it, its numbers joined by dots, reads back as
/// the same numbers.
pub proof fn id_text_reads_back(ns: Seq<usize>)
    requires
        ns.len() > 0,
    ensures
        parse_id_of(join_with(ns.map_values(|n: usize| decimal(n as nat)), "."@)) == Some(ns),
{
    let parts = ns.map_values(|n: usize| decimal(n as nat));
    lemma_split_joined_decimals(ns);
    assert forall|i: int| 0 <= i < parts.len() implies (#[trigger] index_of_text(parts[i])) == Some(ns[i]) by {
        lemma_index_of_decimal(ns[i]);
    }
    assert(parts.map_values(|p: Seq<char>| index_of_text(p)->0) =~= ns);
}

// ---------------------------------------------------------------------------
// Editing commands.  Each returns the line the prompt prints.

/// The text of `/set objective <text>`'s argument, if the subcommand is
/// `objective` and the text is not empty.
pub open spec fn objective_text_of(args: Seq<char>) -> Option<Seq<char>> {
    let (sub, text) = command_parts_of(args);
    if sub == "objective"@ && text.len() > 0 {
        Some(text)
    } else {
        None
    }
}

/// The objective text that a `/set` argument gives, if it gives one.
pub fn objective_text(args: &str) -> (r: Option<String>)
    ensures
        match objective_text_of(args@) {
            Some(t) => r matches Some(x) && x@ == t,
            None => r is None,
        },
{
    let (sub, text) = split_command(args);
    if str_eq(sub.as_str(), "objective") && !text.as_str().is_empty() {
        Some(text)
    } else {
        None
    }
}

/// `[a.b.c]`: the numbers, joined by dots, in square brackets.
pub open spec fn id_label(ns: Seq<usize>) -> Seq<char> {
    "["@ + join_with(ns.map_values(|n: usize| decimal(n as nat)), "."@) + "]"@
}

fn push_id_label(s: &mut String, ns: &Vec<usize>)
    ensures
        final(s)@ == old(s)@ + id_label(ns@),
{
    let ghost parts = ns@.map_values(|n: usize| decimal(n as nat));
    let ghost start = s@;
    push_str(s, "[");
    let mut i: usize = 0;
    while i < ns.len()
        invariant
            i <= ns@.len(),
            parts == ns@.map_values(|n: usize| decimal(n as nat)),
            s@ == start + "["@ + join_with(parts.take(i as int), "."@),
        decreases ns@.len() - i,
    {
        assert(parts.take(i + 1).drop_last() =~= parts.take(i as int));
        if i > 0 {
            push_str(s, ".");
        }
        push_decimal(s, ns[i]);
        assert(parts.take(i + 1).last() == decimal(ns@[i as int] as nat));
        if i == 0 {
            assert(join_with(parts.take(1), "."@) == parts.take(1)[0]);
        }
        i = i + 1;
    }
    assert(parts.take(ns@.len() as int) =~= parts);
    push_str(s, "]");
}

/// The state after `/complete <id>` and the line it prints.
pub open spec fn complete_effect(objs: Seq<ObjectiveView>, id: Seq<char>) -> (Seq<ObjectiveView>, Seq<char>) {
    let p = parse_id_of(id);
    if p is Some && p->0.len() == 3 {
        let ns = p->0;
        let (oi, qi, ai) = (ns[0] as int, ns[1] as int, ns[2] as int);
        if has_action(objs, oi, qi, ai) {
            let a = objs[oi].questions[qi].actions[ai];
            (with_action(objs, oi, qi, ai, ActionView { completed: true, ..a }), "marked "@ + id_label(ns) + " complete"@)
        } else {
            (objs, "not found: "@ + id_label(ns))
        }
    } else {
        (objs, "usage: /complete <obj.question.action>"@)
    }
}

/// `/complete <obj.question.action>`: marks the action complete.
pub fn cmd_complete(app: &mut App, id: &str) -> (msg: String)
    ensures
        (final(app)@, msg@) == complete_effect(old(app)@, id@),
{
    let parts = parse_id(id);
    let p = match parts {
        Some(p) => p,
        None => {
            return String::from_str("usage: /complete <obj.question.action>");
        },
    };
    if p.len() != 3 {
        return String::from_str("usage: /complete <obj.question.action>");
    }
    let (oi, qi, ai) = (p[0], p[1], p[2]);
    let ghost before = app@;
    let found = {
        let objs = app.objectives();
        if oi < objs.len() {
            let qs = objs[oi].questions();
            if qi < qs.len() {
                assert(qs@[qi as int]@ == question_views(qs@)[qi as int]);
                ai < qs[qi].actions().len()
            } else {
                false
            }
        } else {
            false
        }
    };
    if found {
        match app.objective_mut(oi) {
            Some(o) => match o.question_mut(qi) {
                Some(q) => match q.action_mut(ai) {
                    Some(a) => a.set_completed(true),
                    None => {},
                },
                None => {},
            },
            None => {},
        }
        proof {
            let a = before[oi as int].questions[qi as int].actions[ai as int];
            assert(app@ =~= with_action(before, oi as int, qi as int, ai as int, ActionView { completed: true, ..a }));
        }
    }
    let mut msg = String::new();
    if found {
        push_str(&mut msg, "marked ");
        push_id_label(&mut msg, &p);
        push_str(&mut msg, " complete");
    } else {
        push_str(&mut msg, "not found: ");
        push_id_label(&mut msg, &p);
    }
    msg
}

/// The dotted text of an id.
pub open spec fn dotted(ns: Seq<usize>) -> Seq<char> {
    join_with(ns.map_values(|n: usize| decimal(n as nat)), "."@)
}

/// `/complete a.b.c` sets exactly action `c` of question `b` of objective
/// `a` completed and changes nothing else; when there is no such action it
/// changes nothing and says so.
pub proof fn complete_marks_the_named_action(objs: Seq<ObjectiveView>, a: usize, b: usize, c: usize)
    ensures
        has_action(objs, a as int, b as int, c as int) ==> {
            let after = complete_effect(objs, dotted(seq![a, b, c])).0;
            let act = objs[a as int].questions[b as int].actions[c as int];
            &&& after.len() == objs.len()
            &&& after[a as int].questions[b as int].actions[c as int] == ActionView { completed: true, ..act }
            &&& forall|i: int| 0 <= i < objs.len() && i != a ==> #[trigger] after[i] == objs[i]
            &&& after[a as int].questions.len() == objs[a as int].questions.len()
            &&& forall|j: int|
                0 <= j < objs[a as int].questions.len() && j != b ==> #[trigger] after[a as int].questions[j]
                    == objs[a as int].questions[j]
            &&& after[a as int].questions[b as int].actions.len() == objs[a as int].questions[b as int].actions.len()
            &&& forall|l: int|
                0 <= l < objs[a as int].questions[b as int].actions.len() && l != c ==> #[trigger] after[a as int].questions[b as int].actions[l]
                    == objs[a as int].questions[b as int].actions[l]
            &&& after[a as int].content == objs[a as int].content && after[a as int].tags == objs[a as int].tags
                && after[a as int].met == objs[a as int].met
        },
        !has_action(objs, a as int, b as int, c as int) ==> complete_effect(objs, dotted(seq![a, b, c])).0 == objs,
{
    id_text_reads_back(seq![a, b, c]);
}

/// `/answer a.b` on a question whose actions are all completed sets
/// exactly question `b` of objective `a` answered; with an action open it
/// changes nothing.
pub proof fn answer_marks_the_named_question(objs: Seq<ObjectiveView>, a: usize, b: usize)
    ensures
        has_question(objs, a as int, b as int) && incomplete_count(objs[a as int].questions[b as int].actions) == 0 ==> {
            let after = answer_effect(objs, dotted(seq![a, b])).0;
            let q = objs[a as int].questions[b as int];
            &&& after.len() == objs.len()
            &&& after[a as int].questions[b as int] == QuestionView { answered: true, ..q }
            &&& forall|i: int| 0 <= i < objs.len() && i != a ==> #[trigger] after[i] == objs[i]
            &&& after[a as int].questions.len() == objs[a as int].questions.len()
            &&& forall|j: int|
                0 <= j < objs[a as int].questions.len() && j != b ==> #[trigger] after[a as int].questions[j]
                    == objs[a as int].questions[j]
        },
        !(has_question(objs, a as int, b as int) && incomplete_count(objs[a as int].questions[b as int].actions) == 0)
            ==> answer_effect(objs, dotted(seq![a, b])).0 == objs,
{
    id_text_reads_back(seq![a, b]);
}

/// `/met a` on an objective whose questions are all answered marks exactly
/// objective `a` met; otherwise it changes nothing.
pub proof fn met_marks_the_named_objective(objs: Seq<ObjectiveView>, a: usize)
    ensures
        has_objective(objs, a as int) && unanswered_count(objs[a as int].questions) == 0 ==> met_only_at(objs, a),
        !(has_objective(objs, a as int) && unanswered_count(objs[a as int].questions) == 0) ==> met_effect(
            objs,
            dotted(seq![a]),
        ).0 == objs,
{
    id_text_reads_back(seq![a]);
}

/// Objective `a` marked met and nothing else changed.
pub open spec fn met_only_at(objs: Seq<ObjectiveView>, a: usize) -> bool {
    let after = met_effect(objs, dotted(seq![a])).0;
    &&& after.len() == objs.len()
    &&& after[a as int] == ObjectiveView { met: true, ..objs[a as int] }
    &&& forall|i: int| 0 <= i < objs.len() && i != a ==> #[trigger] after[i] == objs[i]
}

/// The state after `/answer <id>` and the line it prints.
pub open spec fn answer_effect(objs: Seq<ObjectiveView>, id: Seq<char>) -> (Seq<ObjectiveView>, Seq<char>) {
    let p = parse_id_of(id);
    if p is Some && p->0.len() == 2 {
        let ns = p->0;
        let (oi, qi) = (ns[0] as int, ns[1] as int);
        if has_question(objs, oi, qi) {
            let q = objs[oi].questions[qi];
            if incomplete_count(q.actions) > 0 {
                let e = QuestionError::IncompleteAction { remaining: incomplete_count(q.actions) as usize };
                (objs, "cannot answer: "@ + e.message_of())
            } else {
                (with_question(objs, oi, qi, QuestionView { answered: true, ..q }), "marked "@ + id_label(ns) + " answered"@)
            }
        } else {
            (objs, "not found: "@ + id_label(ns))
        }
    } else {
        (objs, "usage: /answer <obj.question>"@)
    }
}

/// `/answer <obj.question>`: marks the question answered, which is refused
/// while any of its actions is incomplete.
pub fn cmd_answer(app: &mut App, id: &str) -> (msg: String)
    ensures
        (final(app)@, msg@) == answer_effect(old(app)@, id@),
{
    let parts = parse_id(id);
    let p = match parts {
        Some(p) => p,
        None => {
            return String::from_str("usage: /answer <obj.question>");
        },
    };
    if p.len() != 2 {
        return String::from_str("usage: /answer <obj.question>");
    }
    let (oi, qi) = (p[0], p[1]);
    let ghost before = app@;
    let found = {
        let objs = app.objectives();
        oi < objs.len() && qi < objs[oi].questions().len()
    };
    let mut outcome: Option<Result<(), QuestionError>> = None;
    if found {
        match app.objective_mut(oi) {
            Some(o) => match o.question_mut(qi) {
                Some(q) => {
                    outcome = Some(q.set_answered(true));
                },
                None => {},
            },
            None => {},
        }
        proof {
            let q = before[oi as int].questions[qi as int];
            if outcome matches Some(Ok(())) {
                assert(app@ =~= with_question(before, oi as int, qi as int, QuestionView { answered: true, ..q }));
            } else {
                assert(app@ =~= with_question(before, oi as int, qi as int, q));
                assert(before[oi as int].questions.update(qi as int, q) =~= before[oi as int].questions);
                assert(app@ =~= before);
            }
        }
    }
    let mut msg = String::new();
    match outcome {
        Some(Ok(())) => {
            push_str(&mut msg, "marked ");
            push_id_label(&mut msg, &p);
            push_str(&mut msg, " answered");
        },
        Some(Err(e)) => {
            push_str(&mut msg, "cannot answer: ");
            let t = e.to_string();
            push_str(&mut msg, t.as_str());
        },
        None => {
            push_str(&mut msg, "not found: ");
            push_id_label(&mut msg, &p);
        },
    }
    msg
}

/// The state after `/met <id>` and the line it prints.
pub open spec fn met_effect(objs: Seq<ObjectiveView>, id: Seq<char>) -> (Seq<ObjectiveView>, Seq<char>) {
    let p = parse_id_of(id);
    if p is Some && p->0.len() == 1 {
        let ns = p->0;
        let oi = ns[0] as int;
        if has_objective(objs, oi) {
            let o = objs[oi];
            if unanswered_count(o.questions) > 0 {
                let e = ObjectiveError::UnansweredQuestion { remaining: unanswered_count(o.questions) as usize };
                (objs, "cannot mark met: "@ + e.message_of())
            } else {
                (objs.update(oi, ObjectiveView { met: true, ..o }), "marked "@ + id_label(ns) + " met"@)
            }
        } else {
            (objs, "not found: "@ + id_label(ns))
        }
    } else {
        (objs, "usage: /met <obj>"@)
    }
}

/// `/met <obj>`: marks the objective met, which is refused while any of its
/// questions is unanswered.
pub fn cmd_met(app: &mut App, id: &str) -> (msg: String)
    ensures
        (final(app)@, msg@) == met_effect(old(app)@, id@),
{
    let parts = parse_id(id);
    let p = match parts {
        Some(p) => p,
        None => {
            return String::from_str("usage: /met <obj>");
        },
    };
    if p.len() != 1 {
        return String::from_str("usage: /met <obj>");
    }
    let oi = p[0];
    let outcome: Option<Result<(), ObjectiveError>> = match app.objective_mut(oi) {
        Some(o) => Some(o.set_met(true)),
        None => None,
    };
    let mut msg = String::new();
    match outcome {
        Some(Ok(())) => {
            push_str(&mut msg, "marked ");
            push_id_label(&mut msg, &p);
            push_str(&mut msg, " met");
        },
        Some(Err(e)) => {
            push_str(&mut msg, "cannot mark met: ");
            let t = e.to_string();
            push_str(&mut msg, t.as_str());
        },
        None => {
            push_str(&mut msg, "not found: ");
            push_id_label(&mut msg, &p);
        },
    }
    msg
}

/// The state after `/tag <obj> <name>` and the line it prints.
pub open spec fn tag_effect(objs: Seq<ObjectiveView>, args: Seq<char>) -> (Seq<ObjectiveView>, Seq<char>) {
    match split_once_of(args, ' ') {
        None => (objs, "usage: /tag <obj> <name>"@),
        Some((a, b)) => match index_of_text(a) {
            None => (objs, "invalid index: "@ + a),
            Some(oi) => {
                let name = trim_of(b);
                let at = "["@ + decimal(oi as nat) + "]"@;
                if name.len() == 0 {
                    (objs, "tag name required"@)
                } else if oi < objs.len() {
                    let o = objs[oi as int];
                    if o.tags.contains(name) {
                        (objs, at + " already has tag "@ + name)
                    } else {
                        (objs.update(oi as int, tag_added(o, name)), "tagged "@ + at + " with "@ + name)
                    }
                } else {
                    (objs, "not found: "@ + at)
                }
            },
        },
    }
}

/// `/tag <obj> <name>`: tags the objective.
pub fn cmd_tag(app: &mut App, args: &str) -> (msg: String)
    ensures
        (final(app)@, msg@) == tag_effect(old(app)@, args@),
{
    let (a, b) = match split_once(args, ' ') {
        Some(parts) => parts,
        None => {
            return String::from_str("usage: /tag <obj> <name>");
        },
    };
    let oi = match parse_index(a.as_str()) {
        Some(n) => n,
        None => {
            let mut msg = String::from_str("invalid index: ");
            push_str(&mut msg, a.as_str());
            return msg;
        },
    };
    let name = trim(b.as_str());
    if name.as_str().is_empty() {
        return String::from_str("tag name required");
    }
    let mut at = String::from_str("[");
    push_decimal(&mut at, oi);
    push_str(&mut at, "]");
    let mut msg = String::new();
    match app.add_tag(oi, Tag::new(name.as_str())) {
        Ok(true) => {
            push_str(&mut msg, "tagged ");
            push_str(&mut msg, at.as_str());
            push_str(&mut msg, " with ");
            push_str(&mut msg, name.as_str());
        },
        Ok(false) => {
            push_str(&mut msg, at.as_str());
            push_str(&mut msg, " already has tag ");
            push_str(&mut msg, name.as_str());
        },
        Err(_) => {
            push_str(&mut msg, "not found: ");
            push_str(&mut msg, at.as_str());
        },
    }
    msg
}

// ---------------------------------------------------------------------------
// The listing.

/// `[x]` when done, `[ ]` when not.
pub open spec fn check_of(done: bool) -> Seq<char> {
    if done {
        "[x]"@
    } else {
        "[ ]"@
    }
}

/// ` #a,b` after an objective with tags; nothing when the joined names are
/// empty.
pub open spec fn tag_suffix_of(tags: Seq<Seq<char>>) -> Seq<char> {
    let joined = join_with(tags, ","@);
    if joined.len() == 0 {
        Seq::empty()
    } else {
        " #"@ + joined
    }
}

pub open spec fn action_line_of(labels: Seq<(Days, Seq<char>)>, oi: nat, qi: nat, ai: nat, a: ActionView) -> Seq<char> {
    "    "@ + check_of(a.completed) + " ["@ + decimal(oi) + "."@ + decimal(qi) + "."@ + decimal(ai) + "] "@ + a.content
        + " ("@ + day_label(labels, a.required_time) + "d, "@ + a.category.as_str_of() + ")\n"@
}

pub open spec fn question_line_of(oi: nat, qi: nat, q: QuestionView) -> Seq<char> {
    "  "@ + check_of(q.answered) + " ["@ + decimal(oi) + "."@ + decimal(qi) + "] "@ + q.content + " ("@
        + priority_label_of(q.priority) + ")\n"@
}

pub open spec fn objective_line_of(oi: nat, o: ObjectiveView) -> Seq<char> {
    check_of(o.met) + " ["@ + decimal(oi) + "] "@ + o.content + tag_suffix_of(o.tags) + "\n"@
}

/// A question's line followed by the lines of its first `n` actions.
pub open spec fn question_block_upto(labels: Seq<(Days, Seq<char>)>, oi: nat, qi: nat, q: QuestionView, n: nat) -> Seq<char> {
    question_line_of(oi, qi, q) + concat_all(Seq::new(n, |ai: int| action_line_of(labels, oi, qi, ai as nat, q.actions[ai])))
}

pub open spec fn question_block_of(labels: Seq<(Days, Seq<char>)>, oi: nat, qi: nat, q: QuestionView) -> Seq<char> {
    question_block_upto(labels, oi, qi, q, q.actions.len())
}

/// An objective's line followed by the blocks of its first `n` questions.
pub open spec fn objective_block_upto(labels: Seq<(Days, Seq<char>)>, oi: nat, o: ObjectiveView, n: nat) -> Seq<char> {
    objective_line_of(oi, o) + concat_all(Seq::new(n, |qi: int| question_block_of(labels, oi, qi as nat, o.questions[qi])))
}

pub open spec fn objective_block_of(labels: Seq<(Days, Seq<char>)>, oi: nat, o: ObjectiveView) -> Seq<char> {
    objective_block_upto(labels, oi, o, o.questions.len())
}

/// The blocks of the first `n` objectives.
pub open spec fn list_upto(labels: Seq<(Days, Seq<char>)>, objs: Seq<ObjectiveView>, n: nat) -> Seq<char> {
    concat_all(Seq::new(n, |oi: int| objective_block_of(labels, oi as nat, objs[oi])))
}

/// What `/list` prints: every objective, question and action with its
/// done mark and its id, or a note that there is nothing.
pub open spec fn list_text_of(labels: Seq<(Days, Seq<char>)>, objs: Seq<ObjectiveView>) -> Seq<char> {
    if objs.len() == 0 {
        "(no objectives)\n"@
    } else {
        list_upto(labels, objs, objs.len())
    }
}

proof fn lemma_concat_new_step(n: nat, f: spec_fn(int) -> Seq<char>)
    ensures
        concat_all(Seq::new(n + 1, f)) == concat_all(Seq::new(n, f)) + f(n as int),
{
    assert(Seq::new(n + 1, f).drop_last() =~= Seq::new(n, f));
}

fn push_check(s: &mut String, done: bool)
    ensures
        final(s)@ == old(s)@ + check_of(done),
{
    if done {
        push_str(s, "[x]");
    } else {
        push_str(s, "[ ]");
    }
}

fn push_action_line(s: &mut String, labels: &Vec<DayText>, oi: usize, qi: usize, ai: usize, a: &crate::questions::ActionPoint)
    ensures
        final(s)@ == old(s)@ + action_line_of(day_text_views(labels@), oi as nat, qi as nat, ai as nat, a@),
{
    let ghost start = s@;
    push_str(s, "    ");
    push_check(s, a.completed());
    push_str(s, " [");
    push_decimal(s, oi);
    push_str(s, ".");
    push_decimal(s, qi);
    push_str(s, ".");
    push_decimal(s, ai);
    push_str(s, "] ");
    push_str(s, a.content());
    push_str(s, " (");
    push_str(s, day_text(labels, a.required_time()));
    push_str(s, "d, ");
    push_str(s, a.category().as_str());
    push_str(s, ")\n");
    assert(s@ =~= start + action_line_of(day_text_views(labels@), oi as nat, qi as nat, ai as nat, a@));
}

fn push_question_block(s: &mut String, labels: &Vec<DayText>, oi: usize, qi: usize, q: &Question)
    ensures
        final(s)@ == old(s)@ + question_block_of(day_text_views(labels@), oi as nat, qi as nat, q@),
{
    let ghost start = s@;
    let ghost lv = day_text_views(labels@);
    push_str(s, "  ");
    push_check(s, q.answered());
    push_str(s, " [");
    push_decimal(s, oi);
    push_str(s, ".");
    push_decimal(s, qi);
    push_str(s, "] ");
    push_str(s, q.content());
    push_str(s, " (");
    push_str(s, priority_label(q.priority()));
    push_str(s, ")\n");
    assert(s@ =~= start + question_block_upto(lv, oi as nat, qi as nat, q@, 0));
    let actions = q.actions();
    let mut ai: usize = 0;
    while ai < actions.len()
        invariant
            ai <= actions@.len(),
            lv == day_text_views(labels@),
            action_views(actions@) == q@.actions,
            s@ == start + question_block_upto(lv, oi as nat, qi as nat, q@, ai as nat),
        decreases actions@.len() - ai,
    {
        assert(q@.actions[ai as int] == actions@[ai as int]@);
        push_action_line(s, labels, oi, qi, ai, &actions[ai]);
        proof {
            lemma_concat_new_step(ai as nat, |k: int| action_line_of(lv, oi as nat, qi as nat, k as nat, q@.actions[k]));
        }
        ai = ai + 1;
    }
}

fn push_objective_block(s: &mut String, labels: &Vec<DayText>, oi: usize, o: &Objective)
    ensures
        final(s)@ == old(s)@ + objective_block_of(day_text_views(labels@), oi as nat, o@),
{
    let ghost start = s@;
    let ghost lv = day_text_views(labels@);
    push_check(s, o.met());
    push_str(s, " [");
    push_decimal(s, oi);
    push_str(s, "] ");
    push_str(s, o.content());
    let tags = o.tags();
    let mut joined = String::new();
    let ghost names = tag_views(tags@);
    let mut k: usize = 0;
    while k < tags.len()
        invariant
            k <= tags@.len(),
            names == tag_views(tags@),
            joined@ == join_with(names.take(k as int), ","@),
        decreases tags@.len() - k,
    {
        assert(names.take(k + 1).drop_last() =~= names.take(k as int));
        assert(names.take(k + 1).last() == tags@[k as int]@);
        if k > 0 {
            push_str(&mut joined, ",");
        }
        push_str(&mut joined, tags[k].name());
        if k == 0 {
            assert(join_with(names.take(1), ","@) == names.take(1)[0]);
        }
        k = k + 1;
    }
    assert(names.take(tags@.len() as int) =~= names);
    if !joined.as_str().is_empty() {
        push_str(s, " #");
        push_str(s, joined.as_str());
    }
    push_str(s, "\n");
    assert(s@ =~= start + objective_block_upto(lv, oi as nat, o@, 0));
    let questions = o.questions();
    let mut qi: usize = 0;
    while qi < questions.len()
        invariant
            qi <= questions@.len(),
            lv == day_text_views(labels@),
            question_views(questions@) == o@.questions,
            s@ == start + objective_block_upto(lv, oi as nat, o@, qi as nat),
        decreases questions@.len() - qi,
    {
        assert(o@.questions[qi as int] == questions@[qi as int]@);
        push_question_block(s, labels, oi, qi, &questions[qi]);
        proof {
            lemma_concat_new_step(qi as nat, |j: int| question_block_of(lv, oi as nat, j as nat, o@.questions[j]));
        }
        qi = qi + 1;
    }
}

/// `/list`: the text that lists every objective, question and action.
/// `labels` gives the text for each required time.
pub fn cmd_list(app: &App, labels: &Vec<DayText>) -> (text: String)
    ensures
        text@ == list_text_of(day_text_views(labels@), app@),
{
    let objs = app.objectives();
    if objs.len() == 0 {
        return String::from_str("(no objectives)\n");
    }
    let ghost lv = day_text_views(labels@);
    let mut s = String::new();
    let mut oi: usize = 0;
    assert(s@ =~= list_upto(lv, app@, 0));
    while oi < objs.len()
        invariant
            oi <= objs@.len(),
            lv == day_text_views(labels@),
            crate::app_core::objective_views(objs@) == app@,
            s@ == list_upto(lv, app@, oi as nat),
        decreases objs@.len() - oi,
    {
        assert(app@[oi as int] == objs@[oi as int]@);
        push_objective_block(&mut s, labels, oi, &objs[oi]);
        proof {
            lemma_concat_new_step(oi as nat, |j: int| objective_block_of(lv, j as nat, app@[j]));
        }
        oi = oi + 1;
    }
    s
}

// ---------------------------------------------------------------------------
// Entering an objective: `/set objective <text>` asks for questions and,
// under each question, for actions, until an empty line or the end of input.

/// What the entry of a new objective asks for next.
#[derive(Debug, Clone, Copy, PartialEq, Eq, Structural)]
pub enum SetStage {
    /// A question's text, or an empty line to finish the objective.
    Question,
    /// The priority of the question just entered.
    Priority,
    /// An action's text, or an empty line to finish the question.
    Action,
    /// The category of the action just entered.
    Category,
    /// The required time of the action just entered.
    Time,
    /// Nothing: the objective is complete.
    Done,
}

/// The abstract value of an objective's entry in progress.
pub struct SetStateView {
    pub stage: SetStage,
    pub oi: usize,
    pub objective: ObjectiveView,
    pub question: QuestionView,
    pub text: Seq<char>,
    pub category: ActionCategory,
}

/// An objective being entered at the prompt: the objective so far, the
/// question being entered, and the text and category of the action being
/// entered.
pub struct SetState {
    stage: SetStage,
    oi: usize,
    objective: Objective,
    question: Question,
    text: String,
    category: ActionCategory,
}

impl View for SetState {
    type V = SetStateView;

    closed spec fn view(&self) -> SetStateView {
        SetStateView {
            stage: self.stage,
            oi: self.oi,
            objective: self.objective@,
            question: self.question@,
            text: self.text@,
            category: self.category,
        }
    }
}

pub open spec fn question_prompt_of(oi: nat, qi: nat) -> Seq<char> {
    "  q["@ + decimal(oi) + "."@ + decimal(qi) + "]> "@
}

pub open spec fn priority_prompt_of() -> Seq<char> {
    "    priority [Critical/High/Medium/Low/LongTerm] (Medium): "@
}

pub open spec fn action_prompt_of(oi: nat, qi: nat, ai: nat) -> Seq<char> {
    "    a["@ + decimal(oi) + "."@ + decimal(qi) + "."@ + decimal(ai) + "]> "@
}

pub open spec fn category_prompt_of() -> Seq<char> {
    "      category [Writing/Managing/Qa/Analysis/Research/Programming/Presentation] (Writing): "@
}

pub open spec fn time_prompt_of() -> Seq<char> {
    "      required time in days (1.0): "@
}

/// A line was given and it is not empty.
pub open spec fn given(line: Option<Seq<char>>) -> bool {
    line is Some && line->0.len() > 0
}

/// The line, or empty text at the end of input.
pub open spec fn line_text(line: Option<Seq<char>>) -> Seq<char> {
    match line {
        Some(l) => l,
        None => Seq::empty(),
    }
}

/// The question that an entry holds before one is entered.
pub open spec fn blank_question() -> QuestionView {
    QuestionView {
        id: 0,
        content: Seq::empty(),
        priority: QuestionPriority::Medium,
        actions: Seq::empty(),
        prereq: None,
        answered: false,
    }
}

/// One step of entering an objective: the answer `line` to the last prompt
/// (`None` at the end of input), and `time`, the required time that the
/// line denotes when a time was asked for.  Gives the next state and the
/// next prompt, or `None` when the objective is complete.
///
/// An empty line or the end of input finishes a question (which is then
/// added to the objective under the next id) or the objective.  A priority
/// or category is read like `parse_priority` and `parse_category`, Medium
/// and Writing when the word names none.
pub open spec fn set_step_of(s: SetStateView, line: Option<Seq<char>>, time: Days) -> (SetStateView, Option<Seq<char>>) {
    match s.stage {
        SetStage::Question => if given(line) {
            (SetStateView { stage: SetStage::Priority, text: line->0, ..s }, Some(priority_prompt_of()))
        } else {
            (SetStateView { stage: SetStage::Done, ..s }, None)
        },
        SetStage::Priority => {
            let p = match priority_word_of(lowercase_of(trim_of(line_text(line)))) {
                Some(p) => p,
                None => QuestionPriority::Medium,
            };
            let q = QuestionView { content: s.text, priority: p, ..blank_question() };
            (
                SetStateView { stage: SetStage::Action, question: q, text: Seq::empty(), ..s },
                Some(action_prompt_of(s.oi as nat, s.objective.questions.len(), 0)),
            )
        },
        SetStage::Action => if given(line) {
            (SetStateView { stage: SetStage::Category, text: line->0, ..s }, Some(category_prompt_of()))
        } else {
            let o = question_pushed(s.objective, s.question);
            (
                SetStateView { stage: SetStage::Question, objective: o, question: blank_question(), ..s },
                Some(question_prompt_of(s.oi as nat, o.questions.len())),
            )
        },
        SetStage::Category => {
            let c = match category_word_of(lowercase_of(trim_of(line_text(line)))) {
                Some(c) => c,
                None => ActionCategory::Writing,
            };
            (SetStateView { stage: SetStage::Time, category: c, ..s }, Some(time_prompt_of()))
        },
        SetStage::Time => {
            let a = ActionView { content: s.text, category: s.category, required_time: time.clamp_of(), completed: false };
            let q = QuestionView { actions: s.question.actions.push(a), ..s.question };
            (
                SetStateView { stage: SetStage::Action, question: q, text: Seq::empty(), ..s },
                Some(action_prompt_of(s.oi as nat, s.objective.questions.len(), q.actions.len())),
            )
        },
        SetStage::Done => (s, None),
    }
}

/// A step may run unless it would add a question when no id is left.
pub open spec fn set_step_ok(s: SetStateView, line: Option<Seq<char>>) -> bool {
    s.stage == SetStage::Action && !given(line) ==> s.objective.next_question_id < usize::MAX
}

fn question_prompt(oi: usize, qi: usize) -> (p: String)
    ensures
        p@ == question_prompt_of(oi as nat, qi as nat),
{
    let mut p = String::from_str("  q[");
    push_decimal(&mut p, oi);
    push_str(&mut p, ".");
    push_decimal(&mut p, qi);
    push_str(&mut p, "]> ");
    p
}

fn action_prompt(oi: usize, qi: usize, ai: usize) -> (p: String)
    ensures
        p@ == action_prompt_of(oi as nat, qi as nat, ai as nat),
{
    let mut p = String::from_str("    a[");
    push_decimal(&mut p, oi);
    push_str(&mut p, ".");
    push_decimal(&mut p, qi);
    push_str(&mut p, ".");
    push_decimal(&mut p, ai);
    push_str(&mut p, "]> ");
    p
}

impl SetState {
    /// What the entry asks for next.
    pub fn stage(&self) -> (st: SetStage)
        ensures
            st == self@.stage,
    {
        self.stage
    }

    /// Whether the next question added gets an id.
    pub fn question_id_available(&self) -> (b: bool)
        ensures
            b == (self@.objective.next_question_id < usize::MAX),
    {
        self.objective.next_question_id() < usize::MAX
    }

    /// The objective entered so far.
    pub fn into_objective(self) -> (o: Objective)
        ensures
            o@ == self@.objective,
    {
        self.objective
    }
}

/// Starts entering objective `oi` with the text: the entry state and the
/// first prompt, for the first question.
pub fn set_objective_start(oi: usize, text: String) -> (r: (SetState, String))
    ensures
        r.0@ == (SetStateView {
            stage: SetStage::Question,
            oi,
            objective: ObjectiveView {
                content: text@,
                questions: Seq::empty(),
                tags: Seq::empty(),
                met: false,
                next_question_id: 0,
            },
            question: blank_question(),
            text: Seq::empty(),
            category: ActionCategory::Writing,
        }),
        r.1@ == question_prompt_of(oi as nat, 0),
{
    let state = SetState {
        stage: SetStage::Question,
        oi,
        objective: Objective::new(text),
        question: Question::new(String::new(), QuestionPriority::Medium),
        text: String::new(),
        category: ActionCategory::Writing,
    };
    (state, question_prompt(oi, 0))
}

/// One step of entering an objective; see `set_step_of`.
pub fn set_objective_step(state: SetState, line: Option<String>, time: Days) -> (next: (SetState, Option<String>))
    requires
        set_step_ok(state@, opt_string_view(line)),
    ensures
        (next.0@, opt_string_view(next.1)) == set_step_of(state@, opt_string_view(line), time),
{
    let ghost sv = state@;
    let ghost lv = opt_string_view(line);
    let SetState { stage, oi, mut objective, mut question, text, category } = state;
    let has_text = match &line {
        Some(l) => !l.as_str().is_empty(),
        None => false,
    };
    let line_str = match line {
        Some(l) => l,
        None => String::new(),
    };
    assert(line_str@ == line_text(lv));
    assert(has_text == given(lv));
    match stage {
        SetStage::Question => {
            if has_text {
                let st = SetState { stage: SetStage::Priority, oi, objective, question, text: line_str, category };
                (st, Some(String::from_str("    priority [Critical/High/Medium/Low/LongTerm] (Medium): ")))
            } else {
                let st = SetState { stage: SetStage::Done, oi, objective, question, text, category };
                (st, None)
            }
        },
        SetStage::Priority => {
            let p = match parse_priority(line_str.as_str()) {
                Some(p) => p,
                None => QuestionPriority::Medium,
            };
            let q = Question::new(text, p);
            let qi = objective.total_question_count();
            let prompt = action_prompt(oi, qi, 0);
            let st = SetState { stage: SetStage::Action, oi, objective, question: q, text: String::new(), category };
            (st, Some(prompt))
        },
        SetStage::Action => {
            if has_text {
                let st = SetState { stage: SetStage::Category, oi, objective, question, text: line_str, category };
                (st, Some(String::from_str(
                    "      category [Writing/Managing/Qa/Analysis/Research/Programming/Presentation] (Writing): ",
                )))
            } else {
                objective.push_question(question);
                let qi = objective.total_question_count();
                let prompt = question_prompt(oi, qi);
                let st = SetState {
                    stage: SetStage::Question,
                    oi,
                    objective,
                    question: Question::new(String::new(), QuestionPriority::Medium),
                    text,
                    category,
                };
                (st, Some(prompt))
            }
        },
        SetStage::Category => {
            let c = match parse_category(line_str.as_str()) {
                Some(c) => c,
                None => ActionCategory::Writing,
            };
            let st = SetState { stage: SetStage::Time, oi, objective, question, text, category: c };
            (st, Some(String::from_str("      required time in days (1.0): ")))
        },
        SetStage::Time => {
            question.push_action(ActionPoint::new(text, category, time));
            let qi = objective.total_question_count();
            let ai = question.total_action_count();
            let prompt = action_prompt(oi, qi, ai);
            let st = SetState { stage: SetStage::Action, oi, objective, question, text: String::new(), category };
            (st, Some(prompt))
        },
        SetStage::Done => {
            let st = SetState { stage: SetStage::Done, oi, objective, question, text, category };
            (st, None)
        },
    }
}

} // verus!
