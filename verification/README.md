# cf_qemu_post

Post-processing of memory traces of an emulated machine. The kernel of the machine logs the page
copies that it does; the library finds the loads and stores of those copies in the memory trace.

- `src/` is the library, verified with Verus.
  - `log_parser`: the binary trace and the parser that takes its records from a byte stream.
  - `kernel_log`, `pattern`, `copy_window`: the lines of the kernel log, and the sliding window of
    announced copies.
  - `rowclone`: writes the trace with row copies in place of the accesses of completed copies.
  - `rowclone2`, `trace_debug`, `report`: report the accesses that each completed copy is made of.
  - `rowclone_analysis`: counts the copies of a log that could be row copies.
  - `memory_access`, `transformer`: the processed trace, and its form for the Ramulator simulator.
  - `copy_laws`, `rowclone_laws`, `rowclone2_laws`, `trace_debug_laws`: what holds of every trace.
- `app/` holds the command line tools: arguments, files and messages.
- `tests/` runs the library on concrete traces and logs.
