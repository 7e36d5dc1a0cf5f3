# active-descriptions

A hook that finds jj changes whose description no longer covers their content.

A description is stale when the change has content but no description, or when
its diff against its parents is no longer what it was when the description was
last set. The evolution of the change shows when that was. Diffs are compared,
not trees, so rebases and splits that keep a change's diff do not count.

- `src/` is the library: every decision, with its contract, verified by Verus.
- `app/` is the program: it runs `jj`, reads the repository through jj-lib and
  prints. Without arguments it advises; with `--stop` it blocks the end of a
  session, three times at most, counted in a file for the session.
- `tests/` runs the library, on recorded changes and on real repositories.
