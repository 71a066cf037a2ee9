# argus

A process and security monitor for Windows desktops: it watches process snapshots, CPU and
memory figures, raises events on starts, terminations and spikes, scores processes by risk
rules and behavior, keeps a lineage graph and a timeline, and shows all of it on a console,
a terminal dashboard and a websocket bridge.

## Layout

- `src/` is the verified library (Verus). Its functions have contracts over mathematical
  models (`Seq`, `Map`, `Set`, `int`) and are proved, except a few small trusted items
  whose contracts are taken on trust: the clock read (`clock::system_now`,
  `clock::since_epoch` and `Duration::as_secs`, nothing claimed of their values),
  `text::to_lowercase` and `text::debug_quote` (their results are named, not spelled out);
  the laws that relate several operations (event bus delivery, spike hysteresis, score
  bands, bounded histories, breadth-first neighbour order, dashboard selection and
  confirmation, snapshot comparison) are public proof functions named `law_*`.
  Figures that the collectors measure as fractions are held as hundredths (`*_x100`).
- `tests/` runs the library on concrete values.
- `app/` is the program around it: the process collector (sysinfo, Win32 process control),
  files and sockets, the websocket bridge, the terminal dashboard and the command loop. It
  holds no rule of its own; it hands plain values to the library and acts on what comes back.
