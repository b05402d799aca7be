# otogo

Goal loops where the agent owns the turns and a person owns the rounds.

The library in `src/` holds every decision the loop makes, each with a
contract checked by Verus:

| module | what it decides |
|---|---|
| `glob` | the path patterns authority is written in (`*`, `?`, `**`) |
| `json` | configuration, state, snapshots and ledgers as plain values; deep merge |
| `guard` | the authority check: frozen, propose, free, append-only measures, evidence ledgers |
| `snapshot` | which files are guarded, what a round's snapshot records, the check against it |
| `goal_loop` | the loop's configuration and state, and `STATE.md` |
| `round` | the round lifecycle: open, classify, close, abort, friction, the batch boundary |
| `corpus` | which request a round opens on, and round numbering |
| `report` | what the commands say: status, brief, logs, verdicts on the world and the floor |
| `markdown` | which commands a Markdown document teaches |
| `control` | names, hashing, time, and the walk's rules |
| `text` | characters, lines, decimals, ordering |
| `cli` | the commands and which one a command line runs |
| `templates` | the pages `otogo init` writes |

Alongside the contracts stand the laws the loop promises, proved as proof
functions: a round is judged by the authority in force when it opened; an
unchanged repository passes its guard; a changed or deleted frozen file, a
weakened measure and a weakened ledger are violations; a ledger may only grow;
closing a round counts it against the batch and aborting does not; a spent
batch opens only when forced; repeated friction counts up.

`app/` is the program around the library: argument parsing, the repository on
disk, running the configured shell commands with their time budgets, git, and
the terminal.
