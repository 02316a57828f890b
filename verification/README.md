# film_simulation_lut_learning

Tools that learn a film-simulation colour grade from pairs of images and apply it:
a direct 3D LUT, and a pipeline of colour matrix, tone curves and a 17³ residual LUT.

- `src/` is the verified library (Verus): flat indexing of the residual LUT and its
  nearest-neighbour filling, reading `.cube` files (line and word splitting, the
  integer and float literal grammars, the `[r][g][b]` grid), stratified Lab sampling,
  the integer error measures between 8-bit images (squared error, channel error sums,
  squared ΔE maps, error bands, lightness histogram, order statistics) and the index
  logic of tone-curve fitting.
- `app/` is the command-line front end: OpenCV image I/O and colour conversion, CSV
  files, and the floating-point colour arithmetic (matrix, tone curves, trilinear
  interpolation, least squares). `app <tool>` runs one of the workflow's tools.
- `tests/` exercises the library on concrete values.
