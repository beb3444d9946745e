# loom-rt

Loom runs headless agents over a graph of features: it finds out which features are
ready, hands each to a worker in a git worktree of its own, takes in the reviews that
come back, and goes on until nothing is left to do. This crate holds the rules by which
it does so, each stated as a contract and proved with Verus.

- `src/` is the library. It touches no file, process or clock: it takes what was read as
  plain values and says what to write, run or return.
  - `discovery`, `feature_id`, `dispatch`, `exit`: which features there are, which are
    ready, what became of a run of one, and the exit code that a run comes to.
  - `dispatch::worktree`, `dispatch::propagate`, `dispatch::rescue`: worktrees, the refs
    under which a worker's commits are kept, and the sweep over old ones.
  - `verdict`, `iteration`: reviews and the loop over cycles.
  - `journal`, `recovery`, `delivery`, `state`, `json_reader`, `status`, `atomic_write`: what
    is written under `.loom/`, and what is made of it after a crash.
  - `worker_claude_code`, `spawn_env`, `artifact`, `config`, `cli`: workers, their
    environment, and settings.
  - `text`, `decimal`, `order`, `names`, `paths`, `calendar`, `moment`: the ground that the
    rest stands on.
- `tests/` runs the library on concrete values.
- `app/` is the `loom` program: command line, files, processes, signals and the watcher.
  The environment variable `LOOM_AGENT` names the agent's program; the project's settings
  are read from `pipeline.yml` in the dot directory of that name.

A law about several functions is a public proof function whose name begins with `law_`.
