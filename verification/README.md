# ratlings

Small exercises for learning Ratatui, and the viewer that shows them: a lesson's canvas
drawn on the whole terminal, with instructions, hints and test feedback floating over it on
`Ctrl-G`. The viewer reads each lesson's instructions from its exercise file, runs its tests,
and rebuilds when the file changes; the canvas itself draws each lesson as solved, from the
layouts in `src/exercises.rs`.

- `src/` is the library, written in Verus and verified: reading a lesson's source for its
  instructions, the hints file, the test runner's and the compiler's output, the progress
  file, the key tour, the inline markup and text wrapping, the viewer's state machine and
  the areas of its panes, and the lessons' own layouts. Layout splits are Ratatui's own
  solver, called through one trusted wrapper. Its contract states one piece per size, each inside
  the area and spanning it across the split; where the fixed sizes fit, each of them kept
  and the pieces placed at the start, the end or the centre as asked, a single fill taking
  the rest; where they do not, the pieces filling the area from its start, none over its
  size and a fill getting nothing. How a shortfall is shared is the solver's tie-break, which
  can differ from process to process, and is not stated.
- `app/` is the program around it: the terminal, files, child processes, drawing the
  widgets, and the restart after a rebuild.
- `tests/` runs the library on concrete values.
