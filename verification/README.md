# smart_manager_core

A small planner: objectives, the questions that lead to them and the action
points that answer those questions.  The library keeps the rules between
them (an objective is met only when its questions are answered, a question is
answered only when its actions are done, tag names are distinct, question ids
are unique), validates stored state against those rules, orders questions for
a Gantt chart (prerequisites first) and renders plans as Mermaid/Markdown,
ASCII tables, Markdown to-do lists and HTML.

The functions in `src/` are verified with Verus against their contracts,
except four small wrappers marked `external_body` whose contracts are
trusted: appending a character to a string, `{:?}` of a string, Unicode
lower-casing, and drawing a table with `comfy_table`.  The public proof
functions state the laws the library keeps.

Layout:

- `src/questions.rs` – the model and its edits.
- `src/app_core.rs` – the application state, validation and its laws.
- `src/writer/` – task grouping, the chart order, schedules and renderings.
- `src/cli.rs` – the prompt's parsing and editing commands.
- `src/gui.rs`, `src/dummy.rs` – the state behind the interactive views and
  its sample data.
- `src/days.rs`, `src/text.rs`, `src/priority.rs` – times, text helpers,
  priorities.
- `app/` – the `smanager` program: files, JSON, the prompt loop, and the
  floating-point sums and renderings of times.

Times are single-precision floats; the library carries them as bit patterns
(`Days`) and receives their text renderings from the caller.
