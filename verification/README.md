# membridge

A deterministic, read-only bridge between process memory sources (Windows x64
minidumps and live processes) and bounded scan, inspect and read workflows.

The library under `src/` is written in Verus and verified:

- `scan/` — typed patterns and their exact byte encodings (`pattern`), scope
  selectors and their resolution into canonical address intervals (`selector`,
  `interval`, `scope`), the streaming match engine that turns chunks of memory
  into the least matches in address order (`automaton`, `session`), and the scan
  of a minidump process (`search`).
- `source/` — the source model (regions, modules, coverage), the minidump source
  (`minidump`, with the `minidump` crate's readers in `dump_format`), the live
  source's decisions (`live`), procfs parsing (`procfs`) and the PE and Mach-O
  formats a live source decodes (`hostfmt`).
- `capture`, `skill`, `cli`, `protocol`, `error`, `text` — the capture report,
  the skill install destination, the command surface, the response envelope,
  error codes and text helpers.

`app/` is the command-line program: argument parsing, file mapping, the Linux
procfs and `process_vm_readv` backend, JSON input and output.
