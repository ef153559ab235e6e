# http_follow

Follows growing files over HTTP, as `tail -f` does on a disk: it asks for the end of each
file, then again and again for what comes after the last byte it has, and prints whole
lines as they come.

- `src/` is the library, verified with Verus: which hosts and addresses to connect to,
  which request to make next and what it says, and what a response means. It does no I/O
  and knows no clock; times are handed to it in nanoseconds.
- `app/` is the program around it: the command line, name resolution, connections, timers
  and the terminal.
- `tests/` runs the library.

A file that is idle is asked for less and less often, down to once in seven seconds. URLs
that can be fetched from several addresses are fetched from one of them only.
