# mate

`mate` is a meta package manager. It discovers the package managers of a machine,
searches them, lets the user choose a package and a target, shows the complete
plan, and runs it once it is confirmed.

Everything that decides is a library verified with [Verus](https://github.com/verus-lang/verus):
what a search means, which candidate ranks first, what a plan consists of, when a
plan may run, and what is shown. The program around it reads files, runs
processes, asks registries and talks to the terminal.

## Layout

```text
src/                the verified library
  adapters/         managers: discovery, search, targets, plans; the registry of them
  cli.rs            command-line contract
  context.rs        project markers and target discovery
  coverage.rs       what is surveyed is all that is decided on
  engine.rs         queries, doctor and install decisions
  error.rs          refusals and failures
  execution.rs      running a plan, step by step
  host.rs           what is known of the machine
  json.rs           what is read from JSON
  matching.rs       candidate assessment, ranking, and fallback queries
  model.rs          shared domain types
  normalize.rs      names, folded and split into tokens
  order.rs          orders, stable sorting, sorted sets
  path.rs           file paths
  planner.rs        selection grouping and command plans
  platform.rs       platform-specific rules
  process.rs        bounded captures, environments, executables
  selection.rs      choosing candidates and targets
  survey.rs         which paths have to be looked at
  text.rs           texts
  ui.rs             rendering
tests/              tests of the library
app/                the program
```

## What is proved

Each function states what it returns for every input. Beyond that, the functions
named `law_…` state what holds of the library as a whole, among it:

- A plan runs only if it is no dry run and was confirmed at a terminal or accepted
  with `--yes`; `--yes` accepts only verified packages that the queries name exactly.
- A plan installs every selection, each target that is new is created by one
  instance, and every step is shown with its command, directory, environment,
  guard and privileges.
- Steps run in order and stop at the first failure; all guards are checked before
  the first step, and again before each.
- What is shown of foreign text holds no control character; in what is shown of a
  plan the only one is the line break, and nothing that a plan holds breaks a line.
- Each step of a plan sets its variables once and in the order of their names.
- A stronger kind of match scores higher, and the order of candidates does not
  depend on the order in which they were found, as long as it tells them apart.
- Two machines that agree on the paths that are surveyed yield the same context, the
  same instances and the same plans.
- What a search of Cargo or npm finds can be planned, and every target that a
  manager offers can be planned for.

## How the program and the library meet

The library does no input or output. Where a decision needs some, a function of the
library says what to ask, and another takes the answer: `discovery_requests` and
`discover`, `search_request` and `search`, `install` and `Execution::advance`. A
`Host` holds what was read from the file system; `survey.rs` lists what to read.
