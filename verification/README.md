# foil

`foil` compares two Git revisions: it runs a benchmark on both of them in pairs,
accounts for drift and for the order of the runs, and reports how the candidate
differs from the baseline and how sure that is.

The library under `src/` decides what the program does, and Verus proves that it
does what its contracts say:

- `config`, `setting`, `document`, `arguments`: what a configuration and the
  command line say, and which of them wins.
- `seed`, `generator`, `repetition`: the random streams and the run order, in
  balanced blocks.
- `suite`, `execution`, `hooks`: the plan of a suite, its scopes, and what becomes
  of failures.
- `run`, `lifecycle`, `platform`, `worktree`: how runs, commands, waits and
  cleanups end.
- `executable`, `command_line`, `windows`: starting a process on Windows.
- `measurements`, `artifact`, `report`: the files and texts that are written, and
  the measurements that are read back.
- `scalar`, `metric`, `summary`, `posterior`, `analysis`: ordered series of
  numbers, their units and the draws they come from.
- `text`: text as sequences of characters.

The program around it stands under `app/`: command-line parsing, files, processes,
Git, and the arithmetic on floating-point numbers. Numbers cross into the library
as their bit patterns.

What is taken on trust of `rand`, `toml` and the standard library is stated where
it is used, in `generator`, `document`, `arguments`, `summary` and `text`.
