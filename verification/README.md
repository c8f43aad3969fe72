# rude_core

The core of a multi-connection download engine, written in Verus: how files are
divided, handed to workers, retried, resumed, throttled and assembled is decided by
executable functions with machine-checked contracts. What touches the network, the
disk or the clock's ticking, and the few fractions that are configured or shown, stand
around them in `app/`. Speeds are computed in double precision, by integers:
`engine::double` rounds as floating point does.

## Layout

```
src/
├── text.rs               numbers, white space, separators
├── path.rs               file paths, which need not be text
├── engine/
│   ├── chunk.rs          chunk maps and the work-stealing queue
│   ├── resume.rs         which chunks of an earlier run can be used again
│   ├── select.rs         choosing the best of several candidates
│   ├── mirror.rs         mirror selection, backoff and banning
│   ├── double.rs         double precision in integers
│   ├── speed.rs          speed meters, percentiles, remaining time
│   ├── clock.rs          monotonic time
│   ├── worker.rs         one chunk: requests, stream, throttle, reports
│   ├── budget.rs         the connections that all downloads share
│   ├── disposition.rs    the file name that a server suggests
│   ├── io.rs             positional writes and disk space
│   ├── assembly.rs       what all writes together make of the file
│   ├── download.rs       the download loop's decisions
│   ├── scheduler.rs      the lifecycle: probe, plan, download, verify
│   ├── checksum.rs       digests and how they are compared
│   ├── task.rs           tasks, options, states, progress
│   ├── urls.rs           URLs as text
│   ├── session.rs        the tasks that survive a restart
│   ├── manager.rs        the task registry
│   └── config.rs         configuration defaults
├── proto/types.rs        requests and responses
├── rpc/server.rs         what requests do and what is answered
└── cli/mod.rs            what commands mean and what is printed
tests/                    the library from outside
app/                      command line, HTTP client and server, files, timers
```

## How it fits together

A `Scheduler` turns outcomes into actions; `app/` performs each action and hands
back what came of it. While a file is being fetched, a `DownloadLoop` hands chunks
and mirrors to workers, settles their results and names the workers that are too
slow, whose chunks are then started again. Each worker feeds a `Transfer`, which says
what to ask for, what to write where and when to report. A `ConnectionBudget` and two
`Throttle`s, one per download and one over all of them, hold the limits that workers
share. The `DownloadManager` keeps the tasks, and the functions of `rpc::server` answer
requests against it.

Time, identifiers and directories come from outside. Each function that reads one
of them has a sibling that takes the value as an argument (`pick` and `pick_at`,
`add` and `add_as`), and that sibling's contract is exact.

The public proof functions state what holds across functions, for example that a
chunked download is the source once every chunk's bytes were brought, however its
transfers were split, broken off and interleaved (`engine::assembly`), that stealing
loses no byte (`engine::chunk`), that the chunks in flight are as many as the workers
at work (`engine::download`), that an interrupted download takes up where it was
(`engine::scheduler`), and that a download is reported complete only after its checksum
was verified. A running loop never hangs where it may have at least one worker and one
connection to a mirror, no mirror is named twice, and each worker reports on the mirror
that it was given (`engine::download::a_running_loop_goes_on` and
`the_connections_stay_accounted_for`).
