# tau_cpu

Tau watches CPU pressure and, when the whole machine is busy, asks the
operating system to give the heaviest background processes a higher niceness
(a lower scheduling priority). It restores every niceness it changed when the
watch session ends.

`src/` is the verified library:

| Module | Contents |
| --- | --- |
| `models` | snapshots, policy (with its validation and defaults), actions, change requests |
| `ranking` | the stable highest-CPU-first ordering and the top-N selection |
| `controller` | candidate selection, the per-round decisions (cooldown, niceness checks, the record of original niceness) and restoration |
| `platform` | reports on priority changes from what the OS answered, capture timestamps, snapshots from raw readings |
| `text` | decimal rendering, `/proc/<pid>/stat` niceness parsing |
| `report` | the one-line summary of a round's actions |
| `clock` | the monotonic clock, read through trusted wrappers |
| `laws` | proved properties that span calls and rounds of a watch session |

Percentages are integers in hundredths of a percent; policy durations are
in milliseconds, and the controller's clock counts nanoseconds.

`app/` is the command-line program: argument parsing, sampling the system,
the system calls that set niceness, the watch loop, and JSON or text output.
