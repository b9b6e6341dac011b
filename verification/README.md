# git-imerge

Incremental merge and rebase for Git, as a verified library.

Two branches span a grid: cell `(i1, i2)` is the merge of the first `i1` commits
of one branch with the first `i2` commits of the other. An incremental merge fills
this grid with many small merges. Where one of them conflicts, the user is asked to
resolve just that one, between one commit from each side. Everything about an
incremental merge is kept under `refs/imerge/<name>/`, so it can be interrupted and
taken up again.

## Layout

- `src/` is the library, verified with Verus. What is believed there without proof is
  declared where it is used: the functions `quoted` (a string as `{:?}` shows it),
  `regex_captures` and `regex_escape` (calls of the crate `regex`), with the names
  `debug_form` and `regex_groups` for what the first two return, and what
  `String::push` does to a string.
  - `text`, `error`: strings and the one error type.
  - `talk`, `git`, `history`, `store`: the exchange with the `git` program, and the
    operations on a repository. The library starts no process: it makes requests,
    and whoever uses it gives the replies.
  - `pattern`: the names of refs, and ranges of commits.
  - `block`, `fill`: the grid, windows into it, and filling its cells.
  - `frontier`, `known`, `expand`, `strategy`: how far the merges have come, and how
    they go on.
  - `state`, `imerge`, `work`, `simplify`: one incremental merge: starting, reading,
    saving, pushing forward, and turning it into its final history.
  - `search`: what the bisection for mergeable regions finds.
  - `rowwise`: where the frontiers stop that go row by row.
  - `resume`, `kept`: what is stored can be read back, and saving leaves just that in
    the refs.
  - `replay`: an operation that is run again with one more reply goes on from where
    it was.
  - `diagram`, `cli`, `commands`: drawing, and the commands.
- `app/` is the program: the command line, the processes, the files, and JSON.
- `tests/` holds the tests.

## Commands

| Command | Effect |
| --- | --- |
| `merge BRANCH` | Merge `BRANCH` into the current branch |
| `rebase BRANCH` | Rebase the current branch onto `BRANCH` |
| `drop RANGE`, `revert RANGE` | Drop or revert commits |
| `init`, `start` | Set up a named incremental merge, and go on with it |
| `continue`, `record` | Take in a conflict that the user has resolved |
| `autofill` | Make the merges that do not conflict |
| `diagram` | Draw the current state |
| `simplify`, `finish` | Turn a completed incremental merge into its final form |
| `list`, `remove` | List or remove incremental merges |
| `reparent` | Change the parents of a commit, and of what comes after it |
