# rstat

A system monitor for Waybar. An eBPF probe accounts for CPU residency, resident
memory and I/O of every task at each context switch; this program reads the
probe's map, gathers threads into processes, adds metrics from procfs and sysfs,
and writes one line of JSON per refresh.

The decisions are a Verus library: Verus proves the contract of every function in
`src/` but for the few that call outside code, listed below. `app/` holds the
system calls, the files, the signals and the floating-point formatting around it.

## Layout

| Module | What it decides |
| --- | --- |
| `object`, `loader`, `messages` | which object files are probes, how their loads are relocated, which system call comes next, what is closed and said when one fails |
| `probe` | the tools, the source and the outcomes of a probe build |
| `stats`, `reading`, `seeding` | the task map: reading, ordering, looking up, reaping, entering tasks from before |
| `aggregate`, `ranking`, `sample` | deltas, processes, top fives, one sample |
| `tooltip`, `json`, `lossy` | layout of the tooltip, the JSON line, names that are no UTF-8 |
| `procfs`, `sysfs` | kernel text files, which hardware files are of interest |
| `control`, `histogram` | arguments, intervals, the instance lock, benchmark and profile reports |
| `text`, `sorting` | characters, numbers, separators, sorting |

Laws that span functions are public proof functions in the module that they
speak of: nothing is charged twice or lost over any number of samples, grouping
loses no task, the order of a hash map changes no total and no ranked value, no
descriptor is forgotten, a running probe is enabled on every CPU, a JSON string
reads back.

## What is trusted

- `goblin::elf::Elf::parse` reads the object file. Its result is named, not
  restated.
- `std::str::from_utf8` tells UTF-8 from other bytes. Where other bytes end is
  named, not restated.
- `String::push` appends one character.

## Running

The program needs Linux with BTF and scheduler tracepoints, `CAP_BPF` and
`CAP_PERFMON`. `RSTAT_BPFTOOL`, `RSTAT_CLANG`, `RSTAT_LIBBPF_INCLUDE` and
`RSTAT_PROBE_SOURCE` are read when it is built: the tools, the directory of the
libbpf headers and the probe's source file. A build with privileges uses no tool
from the search path.

`--bench [n]` measures `n` refreshes, `--profile [secs]` prints a latency
histogram of the instrumented probe, `--ludicrous` refreshes every 16 ms. A
real-time signal cycles the interval, the next one toggles kernel threads.
