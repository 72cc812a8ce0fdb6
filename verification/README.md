# fivepoints_calc

Five-point beam analysis of radio-telescope pointing scans: schedules (`.skd`) are
matched against observation data by timestamp and source, the AZ/EL scans are fitted
with Gaussians, and gain-source flux densities are estimated from catalogue calibrators.

- `src/` is the verified library (Verus): the text formats (data rows, `$SKED`
  entries, the flux-calibrator catalogue, timestamps), five-point scan detection, the
  matching of scans with data rows, the pairing of 32m and 34m scans, the plan of the
  gain calibration, the calendar count of seconds that averages timestamps, the
  command-line arguments and file-name components.
  Numbers with a fractional part are handed on as text.
- `app/` is the program: file I/O, the floating-point fits and flux computations,
  the plots (plotters, imagequant, png) and the report.
- `tests/` exercises the library on concrete inputs.

The program reads the Perley & Butler (2017) table from `data/perley_butler_2017.tsv`,
in the working directory or beside the executable.
