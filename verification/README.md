# busybee

A queued runner for builds that would otherwise fight over one machine. `busybee -- <cmd>`
takes a lease from the daemon `bzbd`, which lets commands run as the machine's pool of
CPU tokens allows: tools that speak the GNU make jobserver protocol share the pool job by
job, tools that do not hold a fixed part of it, and anything else has the machine to
itself.

The library under `src/` decides everything: what class a command has, who runs next,
how many tokens each lease holds, what a restarted daemon takes back, what the client and
the monitor show. It does no I/O. Each function says in its contract what it returns, and
the contracts are proved with Verus. What the library promises as a whole stands as public
proof functions beside the functions it is about.

| Modules | What they hold |
| --- | --- |
| `classify`, `inject`, `env` | a command's class, and what is put into its environment and arguments |
| `document`, `config` | the configuration file |
| `scheduler`, `ledger` | admission in the order of arrival |
| `leases`, `admission`, `accounting` | the daemon's leases as a state machine, what its states keep, and the laws of its books |
| `recovery`, `jobserver` | restarting, and the pool of tokens in the fifo |
| `protocol`, `conversation`, `nest`, `pueue`, `enqueue`, `status`, `log`, `exit_code` | what is said to bzbd and to pueued |
| `cli`, `client`, `wait`, `report`, `errors`, `daemon`, `version_parse` | the client |
| `cpu`, `gauge`, `pool`, `table`, `panel` | the monitor |
| `harness` | builds that count their own jobs, for trying the daemon out |
| `text` | the texts all of it is written in |

`app/` is the program around the library: sockets, files, processes, signals and the
terminal. It asks the library what to do, does it, and hands back what came of it.
