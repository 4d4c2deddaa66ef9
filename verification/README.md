# sightglass (verified core)

The logic of a Wasm benchmark toolkit, written in Verus and proved against
its contracts:

- `interpret`: a Dockerfile interpreter that runs without Docker. It parses
  `RUN`, `WORKDIR`, `COPY`/`ADD` and `ARG`/`ENV`, places paths inside a
  working directory, and decides what each instruction asks of the machine.
- `build_docker`: Docker build arguments, the `docker` command lines, the
  reading of their outcome, the identifiers Docker prints, and the simpler
  interpreter of the build tool.
- `extraction`: building an image and copying one file out of it, as a
  sequence of Docker commands driven by a state machine.
- `dockerfile`: a Dockerfile known by its path, and its BLAKE3 identifier.
- `summarize`: grouping measurements by key, the minimum, maximum and median
  of each group, and the layout of the report.
- `unix_path` and `text`: paths and strings as sequences of characters, with
  the semantics of `std::path` and `str`.
- `third_party`: the calls into `regex`, `enquote` and `blake3`, with what the
  library relies on of each.

`app/` holds what runs on the machine: spawning Docker, reading and copying
files, the floating-point mean and mean deviation, and the native build of
the Ackermann benchmark. `tests/` exercises the library on concrete values.
