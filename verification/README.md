# portcrush

A terminal list of the processes that listen on TCP ports, from which a
process can be killed; `portcrush PORT ...` kills the listeners of the given
ports without opening the list.

The library under `src/` holds the logic, with contracts proved of every function:

- `text.rs`: characters, words and lines as `str` splits them, decimal
  numbers and their parsing, substring search.
- `scanner.rs`: lsof's listing read into entries (`NAME` fields split into
  address and port, one entry per process and port).
- `order.rs`: the three orders of the list and a stable sort by them.
- `app.rs`: the list's state, and how it answers keys, ticks, rescans and
  the outcome of a kill.
- `view.rs`: what the screen shows: boxes, the window of visible rows and the
  texts of the header, rows, footer and dialog.
- `cli.rs`: the ports that the command line names and the outcome of a run
  of kills.

`app/` runs lsof, sends the signals, reads the keyboard and draws with
ratatui, handing plain values to the library and back.
