# monitor

Command monitors for an agent session. A monitor runs a shell command as a
long-lived background process and delivers each line of its output to the
session as a notification, waking it when it is idle.

- `src/` is the library, verified with Verus: how output is cut into lines
  (`framing`), the state machine of a monitor's delivery loop (`delivery`,
  `channel`, `clock`) and what holds over its whole life (`delivery_laws`), the
  registry of active monitors (`registry`), the notification (`notification`,
  `text`) and the ways in which a session is woken (`wake`).
- `app/` runs it on tokio: it waits for output, timers and exits, and carries
  out the effects that the delivery loop asks for.
- `tests/` runs the library on concrete inputs.
