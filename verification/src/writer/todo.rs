//! The to-do list of chart tasks as Markdown or HTML.
use crate::days::Days;
use crate::priority::Priority;
use crate::text::{chars_of, concat_all, lemma_concat_all_full, lemma_concat_all_step, lemma_map_chars_avoids, lemma_map_chars_step, map_chars, push_char, push_str};
use crate::writer::gantt::{
    lemma_grouped_sorted_in_range,
    day_label, day_text, day_text_views, grouped_sorted, grouped_sorted_of, section_sums_fit, section_views, task_views,
    DayText, GanttTask, SectionView, TaskView,
};
use vstd::prelude::*;

verus! {

/// The forms in which the to-do list is rendered.
#[derive(Debug, Clone, Copy, PartialEq, Eq, Structural)]
pub enum TodoFormat {
    Markdown,
    Html,
}

pub open spec fn priority_class_of(p: Priority) -> Seq<char> {
    match p {
        Priority::Critical => "priority-critical"@,
        Priority::High => "priority-high"@,
        Priority::Medium => "priority-medium"@,
        Priority::Low => "priority-low"@,
        Priority::LongTerm => "priority-longterm"@,
    }
}

/// The CSS class for a priority.
pub fn priority_class(p: Priority) -> (s: &'static str)
    ensures
        s@ == priority_class_of(p),
{
    match p {
        Priority::Critical => "priority-critical",
        Priority::High => "priority-high",
        Priority::Medium => "priority-medium",
        Priority::Low => "priority-low",
        Priority::LongTerm => "priority-longterm",
    }
}

/// The HTML form of a character: the five markup characters as entities,
/// every other character as itself.
pub open spec fn html_escape_char(c: char) -> Seq<char> {
    if c == '&' {
        "&amp;"@
    } else if c == '<' {
        "&lt;"@
    } else if c == '>' {
        "&gt;"@
    } else if c == '"' {
        "&quot;"@
    } else if c == '\'' {
        "&#39;"@
    } else {
        seq![c]
    }
}

pub open spec fn html_escape_of(s: Seq<char>) -> Seq<char> {
    map_chars(s, |c: char| html_escape_char(c))
}

/// Escaped text holds none of the characters that HTML reads as markup
/// or as the end of an attribute value.
pub proof fn html_escape_leaves_no_markup(s: Seq<char>)
    ensures
        !html_escape_of(s).contains('<'),
        !html_escape_of(s).contains('>'),
        !html_escape_of(s).contains('"'),
        !html_escape_of(s).contains('\''),
{
    reveal_strlit("&amp;");
    reveal_strlit("&lt;");
    reveal_strlit("&gt;");
    reveal_strlit("&quot;");
    reveal_strlit("&#39;");
    let f = |c: char| html_escape_char(c);
    assert forall|x: char| !(#[trigger] f(x)).contains('<') by {
    }
    assert forall|x: char| !(#[trigger] f(x)).contains('>') by {
    }
    assert forall|x: char| !(#[trigger] f(x)).contains('"') by {
    }
    assert forall|x: char| !(#[trigger] f(x)).contains('\'') by {
    }
    lemma_map_chars_avoids(s, f, '<');
    lemma_map_chars_avoids(s, f, '>');
    lemma_map_chars_avoids(s, f, '"');
    lemma_map_chars_avoids(s, f, '\'');
}

/// The text with `&`, `<`, `>`, `"` and `'` replaced by HTML entities.
pub fn html_escape(s: &str) -> (out: String)
    ensures
        out@ == html_escape_of(s@),
{
    let cs = chars_of(s);
    let mut out = String::new();
    let mut i: usize = 0;
    while i < cs.len()
        invariant
            i <= cs@.len(),
            cs@ == s@,
            out@ == map_chars(cs@.take(i as int), |c: char| html_escape_char(c)),
        decreases cs@.len() - i,
    {
        proof {
            lemma_map_chars_step(cs@, |c: char| html_escape_char(c), i as int);
        }
        let c = cs[i];
        if c == '&' {
            push_str(&mut out, "&amp;");
        } else if c == '<' {
            push_str(&mut out, "&lt;");
        } else if c == '>' {
            push_str(&mut out, "&gt;");
        } else if c == '"' {
            push_str(&mut out, "&quot;");
        } else if c == '\'' {
            push_str(&mut out, "&#39;");
        } else {
            push_char(&mut out, c);
        }
        i = i + 1;
    }
    assert(cs@.take(cs@.len() as int) =~= cs@);
    out
}


/// A to-do line in Markdown.
pub open spec fn md_line(labels: Seq<(Days, Seq<char>)>, t: TaskView) -> Seq<char> {
    "- [ ] **["@ + t.priority.label_of() + "]** "@ + t.name + " ("@ + day_label(labels, t.days) + "d)\n"@
}

/// A section of the to-do list in Markdown.
pub open spec fn md_section(labels: Seq<(Days, Seq<char>)>, ts: Seq<TaskView>, sec: SectionView) -> Seq<char> {
    "## "@ + sec.0 + "\n\n"@ + concat_all(sec.1.map_values(|i: usize| md_line(labels, ts[i as int]))) + "\n"@
}

/// The to-do list in Markdown: a title, then `(no tasks)` or the sections.
pub open spec fn todo_markdown_of(labels: Seq<(Days, Seq<char>)>, ts: Seq<TaskView>) -> Seq<char> {
    "# TODO\n\n"@ + if ts.len() == 0 {
        "(no tasks)\n"@
    } else {
        concat_all(grouped_sorted_of(ts).map_values(|sec: SectionView| md_section(labels, ts, sec)))
    }
}

/// A to-do item in HTML.
pub open spec fn html_line(labels: Seq<(Days, Seq<char>)>, t: TaskView) -> Seq<char> {
    "<li><input type=\"checkbox\"><span class=\"priority "@ + priority_class_of(t.priority) + "\">"@
        + t.priority.label_of() + "</span>"@ + html_escape_of(t.name) + "<span class=\"days\">("@
        + day_label(labels, t.days) + "d)</span></li>\n"@
}

/// A section of the to-do list in HTML.
pub open spec fn html_section(labels: Seq<(Days, Seq<char>)>, ts: Seq<TaskView>, sec: SectionView) -> Seq<char> {
    "<section>\n<h2>"@ + html_escape_of(sec.0) + "</h2>\n<ul>\n"@ + concat_all(
        sec.1.map_values(|i: usize| html_line(labels, ts[i as int])),
    ) + "</ul>\n</section>\n"@
}

/// The start of the HTML page.
pub open spec fn html_head() -> Seq<char> {
    "<!DOCTYPE html>\n<html lang=\"en\">\n<head>\n<meta charset=\"utf-8\">\n<title>TODO</title>\n</head>\n<body>\n<h1>TODO</h1>\n"@
}

/// The end of the HTML page.
pub open spec fn html_tail() -> Seq<char> {
    "</body>\n</html>\n"@
}

/// The to-do list as an HTML page: `(no tasks)` or the sections.
pub open spec fn todo_html_of(labels: Seq<(Days, Seq<char>)>, ts: Seq<TaskView>) -> Seq<char> {
    html_head() + if ts.len() == 0 {
        "<p>(no tasks)</p>\n"@
    } else {
        concat_all(grouped_sorted_of(ts).map_values(|sec: SectionView| html_section(labels, ts, sec)))
    } + html_tail()
}

fn push_md_line(out: &mut String, labels: &Vec<DayText>, t: &GanttTask)
    ensures
        final(out)@ == old(out)@ + md_line(day_text_views(labels@), t@),
{
    push_str(out, "- [ ] **[");
    push_str(out, t.priority.label());
    push_str(out, "]** ");
    push_str(out, t.name.as_str());
    push_str(out, " (");
    push_str(out, day_text(labels, t.days));
    push_str(out, "d)\n");
    assert(final(out)@ =~= old(out)@ + md_line(day_text_views(labels@), t@));
}

fn push_html_line(out: &mut String, labels: &Vec<DayText>, t: &GanttTask)
    ensures
        final(out)@ == old(out)@ + html_line(day_text_views(labels@), t@),
{
    push_str(out, "<li><input type=\"checkbox\"><span class=\"priority ");
    push_str(out, priority_class(t.priority));
    push_str(out, "\">");
    push_str(out, t.priority.label());
    push_str(out, "</span>");
    let name = html_escape(t.name.as_str());
    push_str(out, name.as_str());
    push_str(out, "<span class=\"days\">(");
    push_str(out, day_text(labels, t.days));
    push_str(out, "d)</span></li>\n");
    assert(final(out)@ =~= old(out)@ + html_line(day_text_views(labels@), t@));
}

/// Appends the lines of the tasks at `idxs`, in Markdown or HTML.
fn push_lines(out: &mut String, labels: &Vec<DayText>, tasks: &[GanttTask], idxs: &Vec<usize>, html: bool)
    requires
        forall|t: int| 0 <= t < idxs@.len() ==> idxs@[t] < tasks@.len(),
    ensures
        !html ==> final(out)@ == old(out)@ + concat_all(
            idxs@.map_values(|i: usize| md_line(day_text_views(labels@), task_views(tasks@)[i as int])),
        ),
        html ==> final(out)@ == old(out)@ + concat_all(
            idxs@.map_values(|i: usize| html_line(day_text_views(labels@), task_views(tasks@)[i as int])),
        ),
{
    let ghost lv = day_text_views(labels@);
    let ghost ts = task_views(tasks@);
    let ghost md_parts = idxs@.map_values(|i: usize| md_line(lv, ts[i as int]));
    let ghost html_parts = idxs@.map_values(|i: usize| html_line(lv, ts[i as int]));
    let mut j: usize = 0;
    assert(md_parts.take(0) =~= Seq::<Seq<char>>::empty());
    assert(html_parts.take(0) =~= Seq::<Seq<char>>::empty());
    while j < idxs.len()
        invariant
            j <= idxs@.len(),
            forall|t: int| 0 <= t < idxs@.len() ==> idxs@[t] < tasks@.len(),
            lv == day_text_views(labels@),
            ts == task_views(tasks@),
            md_parts == idxs@.map_values(|i: usize| md_line(lv, ts[i as int])),
            html_parts == idxs@.map_values(|i: usize| html_line(lv, ts[i as int])),
            !html ==> out@ == old(out)@ + concat_all(md_parts.take(j as int)),
            html ==> out@ == old(out)@ + concat_all(html_parts.take(j as int)),
        decreases idxs@.len() - j,
    {
        proof {
            lemma_concat_all_step(md_parts, j as int);
            lemma_concat_all_step(html_parts, j as int);
        }
        let i = idxs[j];
        assert(ts[i as int] == tasks@[i as int]@);
        if html {
            push_html_line(out, labels, &tasks[i]);
        } else {
            push_md_line(out, labels, &tasks[i]);
        }
        j = j + 1;
    }
    proof {
        lemma_concat_all_full(md_parts);
        lemma_concat_all_full(html_parts);
    }
}

fn render_sections(out: &mut String, labels: &Vec<DayText>, tasks: &[GanttTask], html: bool)
    requires
        section_sums_fit(task_views(tasks@)),
    ensures
        !html ==> final(out)@ == old(out)@ + concat_all(
            grouped_sorted_of(task_views(tasks@)).map_values(
                |sec: SectionView| md_section(day_text_views(labels@), task_views(tasks@), sec),
            ),
        ),
        html ==> final(out)@ == old(out)@ + concat_all(
            grouped_sorted_of(task_views(tasks@)).map_values(
                |sec: SectionView| html_section(day_text_views(labels@), task_views(tasks@), sec),
            ),
        ),
{
    let ghost lv = day_text_views(labels@);
    let ghost ts = task_views(tasks@);
    let sections = grouped_sorted(tasks);
    let ghost secs = grouped_sorted_of(ts);
    let ghost md_parts = secs.map_values(|sec: SectionView| md_section(lv, ts, sec));
    let ghost html_parts = secs.map_values(|sec: SectionView| html_section(lv, ts, sec));
    proof {
        lemma_grouped_sorted_in_range(ts);
    }
    assert(md_parts.take(0) =~= Seq::<Seq<char>>::empty());
    assert(html_parts.take(0) =~= Seq::<Seq<char>>::empty());
    let mut k: usize = 0;
    while k < sections.len()
        invariant
            k <= sections@.len(),
            lv == day_text_views(labels@),
            ts == task_views(tasks@),
            section_views(sections@) == secs,
            secs == grouped_sorted_of(ts),
            forall|j: int, t: int|
                0 <= j < secs.len() && 0 <= t < secs[j].1.len() ==> #[trigger] secs[j].1[t] < ts.len(),
            md_parts == secs.map_values(|sec: SectionView| md_section(lv, ts, sec)),
            html_parts == secs.map_values(|sec: SectionView| html_section(lv, ts, sec)),
            !html ==> out@ == old(out)@ + concat_all(md_parts.take(k as int)),
            html ==> out@ == old(out)@ + concat_all(html_parts.take(k as int)),
        decreases sections@.len() - k,
    {
        proof {
            lemma_concat_all_step(md_parts, k as int);
            lemma_concat_all_step(html_parts, k as int);
        }
        let label = sections[k].0.as_str();
        let idxs = &sections[k].1;
        assert(secs[k as int] == (label@, idxs@));
        assert forall|t: int| 0 <= t < idxs@.len() implies idxs@[t] < tasks@.len() by {
            assert(secs[k as int].1[t] < ts.len());
        }
        let ghost start = out@;
        if html {
            push_str(out, "<section>\n<h2>");
            let esc = html_escape(label);
            push_str(out, esc.as_str());
            push_str(out, "</h2>\n<ul>\n");
            push_lines(out, labels, tasks, idxs, true);
            push_str(out, "</ul>\n</section>\n");
            assert(out@ =~= start + html_section(lv, ts, secs[k as int]));
        } else {
            push_str(out, "## ");
            push_str(out, label);
            push_str(out, "\n\n");
            push_lines(out, labels, tasks, idxs, false);
            push_str(out, "\n");
            assert(out@ =~= start + md_section(lv, ts, secs[k as int]));
        }
        k = k + 1;
    }
    proof {
        lemma_concat_all_full(md_parts);
        lemma_concat_all_full(html_parts);
    }
}

/// The to-do list in Markdown; `labels` renders each task's days.
fn render_markdown(tasks: &[GanttTask], labels: &Vec<DayText>) -> (s: String)
    requires
        section_sums_fit(task_views(tasks@)),
    ensures
        s@ == todo_markdown_of(day_text_views(labels@), task_views(tasks@)),
{
    let mut s = String::from_str("# TODO\n\n");
    if tasks.len() == 0 {
        push_str(&mut s, "(no tasks)\n");
        assert(s@ =~= todo_markdown_of(day_text_views(labels@), task_views(tasks@)));
        return s;
    }
    render_sections(&mut s, labels, tasks, false);
    assert(s@ =~= todo_markdown_of(day_text_views(labels@), task_views(tasks@)));
    s
}

/// The to-do list as an HTML page; `labels` renders each task's days.
fn render_html(tasks: &[GanttTask], labels: &Vec<DayText>) -> (s: String)
    requires
        section_sums_fit(task_views(tasks@)),
    ensures
        s@ == todo_html_of(day_text_views(labels@), task_views(tasks@)),
{
    let mut s = String::from_str(
        "<!DOCTYPE html>\n<html lang=\"en\">\n<head>\n<meta charset=\"utf-8\">\n<title>TODO</title>\n</head>\n<body>\n<h1>TODO</h1>\n",
    );
    if tasks.len() == 0 {
        push_str(&mut s, "<p>(no tasks)</p>\n");
    } else {
        render_sections(&mut s, labels, tasks, true);
    }
    push_str(&mut s, "</body>\n</html>\n");
    assert(s@ =~= todo_html_of(day_text_views(labels@), task_views(tasks@)));
    s
}

/// The to-do list in the given format.
pub fn render(tasks: &[GanttTask], format: TodoFormat, labels: &Vec<DayText>) -> (s: String)
    requires
        section_sums_fit(task_views(tasks@)),
    ensures
        format == TodoFormat::Markdown ==> s@ == todo_markdown_of(day_text_views(labels@), task_views(tasks@)),
        format == TodoFormat::Html ==> s@ == todo_html_of(day_text_views(labels@), task_views(tasks@)),
{
    match format {
        TodoFormat::Markdown => render_markdown(tasks, labels),
        TodoFormat::Html => render_html(tasks, labels),
    }
}

} // verus!
