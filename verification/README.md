# rstest

A parallel, pytest-compatible test runner, with its decisions verified in Verus.

`src/` is the library: what the runner decides and computes, from plain values to
plain values, with contracts that Verus proves.

- `text`, `numbers`, `double`, `order`, `ordered_map`, `sequences`, `rank`, `paths`,
  `nodeids`: the ground that the rest stands on. Numbers with fractions are held by
  their bits, compared and written, and never added.
- `cli`, `config`, `collect`, `discover`: arguments, configuration files, test files
  and interpreters.
- `run`: the plan of a run, what it selects, how it ends, and several projects in one
  repository.
- `durations`, `flakes`, `cache`, `incremental`, `coverage_skip`: what is remembered
  between runs.
- `doctor`, `explain`, `junit`, `annotate`, `merged`, `quarantine`, `discovery`: what
  is told of a run.
- `migrate`, `ddmin`: finding out why tests fail only in parallel or only after
  others.
- `toml_doc`, `json_doc`, `patterns`, `digest`: the few calls into other crates, with
  the contracts that are taken on trust.

`app/` is the program around it: processes, files, sums of floating-point numbers.
`tests/` runs the library.
