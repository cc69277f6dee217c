# sim-runner

Runs the fresnel photon simulator and turns what a run leaves behind into
throughput figures: packets per simulated second from the time tags of the
parquet files it writes, or packets per wall-clock second from the throughput
monitor lines it prints.

- `src/` is the library, verified with Verus:
  - `text`: characters, white space, searching, decimal numbers (as `trim`,
    `split_once` and `from_str` of the standard library take them);
  - `telemetry`: parsing monitor lines and the measurement window over them;
  - `tags`: spans of time tags, per batch, per file and per run;
  - `run`: paths in the fresnel checkout, the launch command, the shutdown
    wait, and which parquet files a run created;
  - `cpus`: CPU ids from `/sys/devices/system/cpu` and `taskset` CPU lists;
  - `error`: why a run gave no figure.
- `app/` holds the process, file, clock and floating-point work and the three
  sweeps (`hom-sweep-fine`, `core-scaling`, `core-scaling-vs-quisp`), chosen
  by the first argument.
- `tests/` runs the library on concrete values.

Build fresnel with `--release` first.
