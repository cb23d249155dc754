# taskman

The core of a small graphical task manager, verified with Verus.

- `src/frame.rs`, `src/glyph.rs`: the model of an RGBA frame buffer and of
  drawing rectangles and rasterised glyphs into it.
- `src/world.rs`: the screen (`World`) that draws text and rectangles, and the
  font with its bounded glyph cache (`FontManager`); fonts are loaded with
  `fontdue`.
- `src/processes.rs`: grouping process samples by executable and ordering
  the resulting table by any of its columns.
- `src/view.rs`: the view state (ordering, scrolling, dragging) and how mouse
  input, window resizes and counters change it.
- `src/laws.rs`: properties across calls (idempotent fills, cache hits,
  clicking a column twice, scrolling back).
- `app/main.rs`: the window, event loop, system sampling and rasterisation
  (`winit`, `pixels`, `sysinfo`, `nvml-wrapper`, `fontdue`).
