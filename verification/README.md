# katsu_compat

Node.js compatibility testing for JavaScript runtimes: run Node's own test suite
against a runtime binary and publish the pass rate per module, with every failure
named. A run is compared with a committed expectations file, and any difference,
a test that stops passing or one that starts, fails the build.

## Layout

- `src/` is the library, written in Verus. Every function in it carries a contract
  that Verus proves. The exceptions are three trusted items for std, which Verus
  takes on trust: the wrapper of `String::push`, the declaration of `PathBuf`,
  and `PathBuf`'s `Clone`, of which nothing is stated:
  - `outcome`: test outcomes, expectations files and the ratchet (`diff`), with
    its laws (a diff is empty exactly when both runs hold the same tests with the
    same outcomes, so any difference fails the build; swapping the runs swaps what
    was added with what was removed, and what regressed with what was fixed).
  - `report`: module names from test paths, per-module tallies and the published
    Markdown table, worst module first, with every failure named.
  - `tally_laws`: the tally of two runs joined is their tallies merged, and a
    run's tally does not depend on the order of its results.
  - `rate`: the table's pass rates, stated over integers as the double nearest
    to `100 * pass / attempted`, printed to one decimal.
  - `runner`: what to do at each turn of running one test (wait, collect, kill on
    timeout) and how to classify what it printed.
  - `suite`: which files are tests, their `// Flags:` directives, the suite version.
  - `harness`: the runtime's label, the progress stream, the account of a change.
  - `sort`, `sorted_map`, `text`: name order, an ordered string map, and the
    character-level text operations the rest is written in.
- `app/` is the command-line program around it: argument parsing, the file
  system, child processes, the thread pool and JSON.
- `tests/` runs the library on concrete inputs.

## Using it

```
katsu-compat vendor --tag v24.18.0
katsu-compat run --runtime node --markdown results/node.md
katsu-compat run --runtime ../katsu/target/release/katsu --against expectations/katsu.json
```
