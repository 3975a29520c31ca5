# worklog

A work journal with to-dos, built around two outputs: the weekly timesheet
summary and the annual export of R&D entries. The core is a Verus library:
its functions carry contracts that Verus proves, except a few small
wrappers around `String::push`, `str::to_lowercase` and the pulldown-cmark
parser, whose contracts are taken on trust from those libraries.

## Layout

```
src/
  calendar.rs   day numbers, weekdays, the Monday a week starts on
  text.rs       characters, trimming, words, case folding
  like.rs       SQLite LIKE matching and the escaping of search words
  order.rs      stable sorting and limited listings by a ranked key
  notes.rs      the notes editor's markdown actions (wrap, prefix, numbering)
  md_layout.rs  task notes parsed by pulldown-cmark and laid out as PDF
                blocks by a state machine
  report.rs     durations, CSV fields, project runs, week slots, PDF notes
  idle.rs       reading the idle sources
  session.rs    the app's decisions: filters, forms, the task-to-log bridge,
                task actions and undo, drag reordering, settings, global
                search, list sections and row controls
  db/           the records (projects, tasks, journal entries, snapshots):
                their orderings, filters, timers and merge rules
tests/          scenario tests through the public API
app/            the program around the library: SQLite storage, reports
                with floating-point hours, PDF rendering, the idle
                listeners, and a command-line front
```

`app/` is plain Rust and is not verified; it hands the library plain values
and checks each `requires` before it calls.
