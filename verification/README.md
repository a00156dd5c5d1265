# rsomics-boschloo-exact (verified core)

Boschloo's 2x2 unconditional exact test. The library under `src/` is written
in Verus and proved against its contracts; the command line tool under `app/`
is ordinary Rust built on it.

`src/` holds the exact, integer part of the test:

- `table` reads a table spec `a,b,c,d` into four counts, or names the fault
  (wrong number of cells, or the first cell that is not a count); a spec
  written from four counts reads back as those counts.
- `batch` cuts a batch file into its table lines (trimmed, blank lines
  dropped) and reads each line as UTF-8 text and then as a table.
- `text` holds the splitting, whitespace and decimal rules the readers share.
- `sample_space` numbers the tables that share the observed column totals and
  walks them diagonal by diagonal (`x1 + x2 = s`); the diagonals partition the
  space and the flat numbering is one-to-one.
- `hypergeom` gives the support of the hypergeometric distribution, which on
  each diagonal is exactly that diagonal.
- `alternative` holds the tested tail and its command line name.

`app/` holds what is floating point (log-gamma combinations, the hypergeometric
CDF, the nuisance maximisation, the two-sided rule) and the I/O: argument
parsing, reading the batch file, and printing results.
