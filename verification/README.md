# bvr

A pager for large and growing logs: it indexes the lines of a buffer,
filters them by regular expressions and bookmarks, composes the filters by
union or intersection, and shows the result through a scrolling view with a
cursor and selections.

The library under `src/` is written in Verus and verified: each public
function carries a contract over a mathematical model of its data, and the
laws that tie functions together are public proof functions.

- `line_index`, `buffer`, `segment`, `cowvec`: the line index of a buffer,
  the buffer cut into segments, and the walk over its lines in contiguous
  chunks.
- `lineset`, `search`, `indexset`, `node`, `ftree`, `imvec`: sets of line
  numbers, their composition, searches by regular expression, and the
  indexed ordered set with its tree.
- `filters`, `viewer`, `instance`, `colors`: filters and their composition,
  the cache of visible rows, an open buffer with its cursor and view, and
  the colours handed to new filters.
- `cursor`, `viewport`, `direction`, `mux`, `status`, `history`: cursors and
  selections, viewports, the multiplexer of open buffers, status messages
  and command history.
- `editor`, `command`, `prompt`, `commands`, `actions`, `config`, `shell`,
  `layout`: the line editor of the command prompt, command parsing, input
  modes, saved filter sets, shell command lines and the layout of the
  screen.
- `keys`, `session`: the table from input mode and key to action, and the
  viewer's state machine, which carries out actions and commands and says
  what outside work is left.
- `inflight`, `err`: results that arrive while work goes on, and errors.

`app/` is a line-mode front end: it reads files and standard input, writes
the view as text, and keeps saved filters in the user's data directory.
