# mathgen

Printable PDF worksheets of stacked arithmetic problems, with the logic
verified by Verus.

- `src/` is the verified library:
  - `problem` — operations, problems, the SplitMix64 generator and the
    generation of a worksheet's problems, with their constraints;
  - `args` — the command line: flags, values, numbers and their checks;
  - `magnitude` — exact decimal comparisons that decide whether a type size
    reads as a finite `f32` above zero;
  - `pdf` — the PDF writer: drawing commands, WinAnsi text, the file with its
    cross-reference table (lengths in hundredths of a point);
  - `font` — Helvetica advance widths;
  - `layout` — page counts, grid cells, answer lines and page labels;
  - `text` — decimal rendering and character helpers.
- `app/` is the program: it reads the arguments, measures the page in points
  (floats), draws through the library and writes the file.
- `tests/` holds the tests.
