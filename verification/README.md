# ayagami_gd

The verified core of a Godot integration for Ayagami models (`.model3.json`
models, `.motion3.json` motions, `.exp3.json` expressions).

- `src/` is the library, verified with Verus: property naming and routing
  (`properties`), an insertion-ordered name dictionary (`dictionary`),
  expression grouping and weights (`expression`), the override mutator
  (`mutator`), motion curve layout and reset tracks (`motion`), mesh, material
  and clipping-mask decisions for model import (`loader`), and importer
  options and paths (`importer`).
- `app/` is the Godot extension around it: engine classes, file reading, the
  model runtime, and the floating point work (vertices, bounds, curve
  tangents, expression blending).
- `tests/` runs the library on concrete values.
