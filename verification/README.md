# mitame

Visual regression testing for screenshot tests: adapters write PNG
screenshots (with optional JSON sidecars) under `.mitame/current/<profile>/`,
`mitame compare` compares them with `.mitame/baseline/<profile>/`, writes
`report/result.json` and an HTML report, and `mitame approve` or
`mitame compare --update` promotes accepted screenshots into the baseline.

## Layout

- `src/` is the library, verified with Verus. Every public function carries
  a contract over mathematical models (`Seq`, `Map`, spec functions), and the
  properties that relate several functions are stated and proved as `law_*`
  proof functions.
  - `identity`, `identity_laws`, `order`: screenshot identities
    (`<platform>/<group>/<name>[__<variant>]`), their canonical text, and the
    order of identity sets.
  - `layout`: where files live under the root, and the identities found by a
    directory walk.
  - `config`: policy, per-identity rules (the last matching rule wins) and
    the glob patterns that select them, matched with `globset`.
  - `sidecar`, `compare`, `diff`, `result`: the comparison of one identity as
    a sequence of questions about its files, the summary of a run, and the
    bounding box of the differing pixels.
  - `files`, `approve`, `update`: the file operations that approving and
    updating plan, with a model of what they do to the files.
  - `report`: the HTML report and the copies it needs.
  - `cli`: exit codes, settings resolution, printed lines, the capture
    environment.
  - `bench`: the benchmark harness's size flag and generated fixture.
  - `json`: reading fields of JSON documents (`.fvmrc`, sidecars) through
    `serde_json`, and the baseline copy of a sidecar.
  - `text`: strings, decimal and percentage formatting.
- `app/` is the command line: argument parsing (`clap`), reading
  `mitame.toml` (`toml`), walking directories (`walkdir`), reading and
  writing files and JSON (`serde_json`, `schemars`), decoding PNGs and
  measuring colour differences (`image`, floating point), and comparing
  identities in parallel (`rayon`). It asks the library what to do and
  performs it. `mitame bench` runs the benchmark harness: it writes the
  fixture that the library generates from the templates under
  `bench/src/templates/` and times `flutter test` and `mitame compare`.
- `tests/` exercises the library on concrete values.
