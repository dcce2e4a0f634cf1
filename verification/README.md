# dreki

A small game engine built around an archetype-based entity component
system, written in Verus: the engine's logic is stated in `requires` /
`ensures` contracts and proved.

## Layout

- `src/` — the verified library.
  - `entity`, `archetype`, `table`, `world`, `hierarchy`, `system`: the
    entity store. Entities are generational handles; components and
    resources are values of one type `V` stored under integer kind keys;
    entities with the same kinds share an archetype. Names, tags and
    parent/child links live in the world too.
  - `input`: pressed / just pressed / just released state of keys and buttons.
  - `animation`: sprite-sheet grids, clip frame lists and frame stepping.
  - `batch`: index buffer and draw calls for back-to-front 2D primitives.
  - `mesh`: triangle indices of the cube, plane, sphere and cylinder.
  - `font`: glyph table slots, the font store, shelf packing of glyphs into
    an atlas and copying their bitmaps in.
  - `texture`: the texture store with its cache by path, image decoding in
    the format a file's extension names (through the `image` crate) and RGB
    to RGBA conversion.
  - `asset`: watched files and debounced hot reloads.
  - `window`: what the window loop does on resume, on each window event,
    in which order a frame runs its steps, and after drawing a frame.
  - `audio`: which audio sources start and which finished sounds are
    released on each run of the audio system, and audio errors.
  - `diag`, `names`, `debug_text`: diagnostics snapshots, the log ring,
    short type and system names, and parsing of `Debug` texts.
  - `telemetry`, `dashboard`: state and key handling of the terminal
    dashboard.
- `tests/` — tests of the library.
- `app/` — ordinary Rust around the library: the terminal dashboard
  program (UDP, JSON, ratatui), and the engine's floating-point and I/O
  side (transforms and their propagation, tweening, mesh vertices, glyph
  rasterization with `fontdue`, file watching with `notify`, the
  diagnostics sender).

Laws of the library are public proof functions named `law_*`.
