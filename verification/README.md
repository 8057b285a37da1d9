# matter

The canvas of a raster painting program, as a verified library.

- `src/binary32/` is IEEE 754 single precision arithmetic on integers: a model of the
  numbers, an executable type that is proved to follow it, bounds on the errors of
  rounding, and the order that rounding keeps. Every number is that of the model, its
  sign and both zeros included; which pattern stands for what is not a number is left
  open.
- `src/canvas/` holds pixels, tiles, strokes, the view of the canvas and the plan of a
  frame. The laws that hold of them stand beside them, in `pixel_laws`, `stroke_laws`,
  `carry_laws`, `speed_laws`, `direction_laws`, `view_laws` and `accuracy`, and in the
  modules that they are about.
- `src/panels/` and `src/ui/` say what the panels and the toolbar show.
- `src/layer.rs` and `src/text.rs` are what the others share.
- `tests/` runs the library, mostly against the arithmetic of the machine.
- `app/` is the editor around the library: windows, events, the graphics card. It is
  built on gpui. Its words come from the `locales/` that a program adds beside it.

Positions, sizes and colours are `Single` values, which hold the bits of an `f32`.
What goes through a function that the library does not have (an arc tangent, a sine)
is reckoned in `app/`.

The ids of new layers come from the `uuid` crate. The two functions that call it, in
`src/panels/identity.rs`, are the only ones whose contracts are not proved.
