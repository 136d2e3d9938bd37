# thouart

An interactive raw-mode terminal interface for CLI tools: keystrokes are
filtered for an escape sequence and forwarded to a WebSocket, what comes back is
written to the terminal, and the terminal is in raw mode meanwhile.

- `src/`: the decisions, verified with Verus. The escape sequence filter, the
  tasks that relay standard input, the event loop of a session, and the steps
  into and out of raw mode.
- `app/`: the I/O around them. `Console`, its async tasks, and the system calls.
- `tests/`: tests of the library.
