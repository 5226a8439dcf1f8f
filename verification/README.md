# tfg_ml

Machine-learning experiments on two tabular data sets (bank marketing
classification, California housing clustering and regression) and a
per-station temperature summary, split into a verified library and a thin
runner.

* `src/` — the library, verified with Verus:
  * `text` — splitting lines at a separator, trimming quotes and white space;
  * `encoder` — codes for the distinct texts of a categorical column, in order
    of first appearance;
  * `table` — reading `;`-separated records and encoding their columns
    (all-categorical, or mixed with numeric fields), labels, record checks;
  * `csv_table` — reading comma-separated files with a header line (through
    `csv`) and choosing the complete records;
  * `folds` — contiguous k-fold cross-validation ranges and train/test splits;
  * `sampling` — shuffled orders and bootstrap samples (through `rand`);
  * `vote` — majority vote and random-forest style ensemble predictions;
  * `metrics` — counting correct predictions;
  * `classes` — the two classes of a binary problem and their ±1 signs.
* `app/` — the runner: reading files, floating-point parsing and
  statistics, model fitting with linfa and smartcore, plotting with plotters.
* `tests/` — tests of the library.
