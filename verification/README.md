# gaggle

A checklist-driven review and fix loop around the `goose` agent. Each component
of a repository is reviewed once; the findings are the work order of a fixer;
what it changes is checked with the repository's own commands and committed
where they are green. A component whose work cannot be brought to a green check
is parked, and the loop goes on with the next.

## Layout

- `src/` is the verified library: every decision of the loop, every text that it
  writes and every text that it reads, with contracts proved by Verus.
  - `checklist`, `roundtrip`: the checklist file, and that reading gives back
    what was written
  - `state`, `plan`, `run_loop`, `loop_engine`: the phases of components, what is
    prepared for a run, its course, and the work on one component
  - `verify`: the lists of commands, watching a running command, and the verdict
  - `commit`: which git commands are run and what their output means
  - `goose`: how the agent is called and how its answer is found
  - `discover`: what is usable of the components that an agent proposes
  - `recipes`, `status`, `report`, `cli`: the remaining files, the timeline, the
    report of a run, and the command line
  - `config`, `json`, `clock`, `text`, `number`: TOML and JSON documents through
    models of their contents, the time, text and numbers
- `app/` is the program around it: processes, files, and costs, which are
  floating-point numbers.
- `tests/` runs the library.

TOML and JSON are read with the crates `toml` and `serde_json`, and the time is
told by `chrono`. Their functions are called through small wrappers in `config`,
`json` and `clock`; the contracts of these wrappers, and of four functions of the
standard library in `text`, are trusted.

The settings file that a fresh repository gets (`DEFAULT_CONFIG` in `recipes`)
and the recipes that the agent is given (`app/recipe_texts.rs`) are worded by
this project. A repository puts its own wording in place of a recipe with an
override of the same name, and edits its settings file as it likes.
