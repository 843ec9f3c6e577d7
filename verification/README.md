# freestati

The data engine of FreeStati, an SPSS-style statistics desktop application,
with its decisions proved in Verus.

- `src/` is the verified library: choosing a file's reader and writer by its
  extension, the File Explorer listing, variable metadata and its inference,
  paging, cell addressing and the value an edited cell takes, reading the parameters of every procedure (the descriptive, comparison
  and nonparametric tests, crosstabs, general linear and mixed models,
  factor, reliability and survival analysis), and the case
  selection, grouping, ranking and tallying that every statistical procedure
  rests on, with the errors each procedure reports.
- `app/` is the program around it: the dataset as a Polars `DataFrame`,
  delimited and SPSS file I/O (`polars`, `ambers`, `arrow`), the floating-point
  statistics, model fitting and p-values, and the Tauri command surface and native menu.
- `tests/` runs the library on concrete values.

Ranks are exact: values are ranked by integer order keys, and the library
returns doubled midranks and doubled rank sums so that ties stay exact.
