# caleb

A TUI task manager for coding sessions: one plain markdown file per session,
two panes (Active and Completed), a resume picker, a pull screen that carries
open tasks forward from a past session, and `--clean` for sessions with
nothing left to do.

## Layout

- `src/`: the library, verified with Verus: the file format, the state
  machines of the three screens, the pull and its write plan, file naming
  and the clean rule, each with its contract. What stays outside is the
  plumbing around them, such as resuming a session by renaming its file
  (skipped when the name is already right) and reading it back:
  - `model`: tasks, timestamps, panes, byte-capped truncation.
  - `text`, `format`: line splitting and decimal formatting facts.
  - `markdown`: the session file format; parsing and serializing, with the
    round trip proved.
  - `session`: editing a session, and pulling tasks from a past session
    (what moves, what is left, what must be written, in which order).
  - `storage`: the storage directory, file names, timestamps.
  - `input`: keys, mouse events and rectangles as plain values.
  - `ui`: pane geometry, click timing, the header and input-field texts.
  - `app`: the session screen's state machine.
  - `picker`: the resume picker's state machine, its rows and the session
    list's order.
  - `pull`: the two pull screens' state machine.
  - `clean`: which sessions `--clean` deletes, and what counts as a yes.
- `app/`: the program around it: command line, terminal, drawing, the event
  loops and every read and write of a file.
- `tests/`: tests of the library.
