# factory-tui

Browse an agent factory as a tree of seats: tmux itself, session → window →
pane, on the left; a coloured snapshot of the selected pane on the right;
Enter jumps the attached client there. An optional configuration file may
rewrite what a row *says*; nothing may change what the tree *is*.

## Layout

- `src/` is the library, verified with Verus. Every decision the browser
  makes lives here with its contract: parsing the tmux census and window
  names, building the tree, status sampling and roll-up, display labels and
  their sanitising, the configuration's rules, the styled snapshot reader,
  hit-testing, and the browser itself as a state machine (`app`), whose
  event handlers return the outside work they need (a census, a file peek, a
  pane capture, a jump).
- `app/` is the program around it: arguments, the environment, reading
  files, running tmux, parsing TOML, drawing with ratatui, and the event
  loop that performs what the library asks for.
- `tests/` exercises the library through its public interface.

The library's laws (for instance that no label can forge a tmux marker or a
status, that samplers never change the tree's structure, that every census
window becomes exactly one window row, that the dump's markers carry exactly
the census's window and pane ids and its status fields only the rows' own,
that the structural fingerprint changes exactly when the structure does, and
that the census comes out sorted)
are public proof functions named `law_*`.
