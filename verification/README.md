# amanita

A small retained-mode UI layout library: a tree of elements (frames, labels, scroll frames)
is measured bottom-up, arranged top-down and turned into a list of drawing operations.
The library is written in Verus; every function in `src/` is verified against its contract.

## Layout

- `src/vec2.rs`, `src/render_box.rs`: integer vectors and boxes (shrinking, splitting into columns).
- `src/style.rs`, `src/draw.rs`: colors, padding, borders, styles, and drawing operations.
- `src/layout.rs`, `src/tag.rs`: layouts (sequential, flex, grid, scroll) and element kinds.
- `src/element.rs`: the element set: building, sorting, render order, measuring, arranging,
  rendering, and one whole frame (`process_frame`, and `try_process_frame`, which first
  checks on the running values that the frame can be processed).
- `src/order.rs`: the breadth-first render order and its laws.
- `src/measure.rs`, `src/arrange.rs`, `src/render.rs`: what measuring, arranging and rendering
  compute, as spec functions, with their laws.
- `src/vld/`: the traits through which the library measures text and draws.
- `app/`: the demo program on raylib: window, input, scroll state (floats), and the
  execution of drawing operations with scissor clipping.
