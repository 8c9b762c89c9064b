# atlas

The map, scenario and history-simulation logic of the Atlas world generator
and history simulator, written in Verus with its contracts proved.

## Layout

- `src/config/` — map geometry shared by all configurations (tile indices,
  map points, resource chunks, neighbouring tiles), the simulator
  configuration (with the default biome table) and the generator's plain
  settings.
- `src/domain.rs` — map layers and overlays.
- `src/ui.rs` — enums the interface edits by index.
- `src/map/internal.rs` — starting point weights and the random placement of
  starting points and their civilizations.
- `src/worldgen.rs` — the generator's span flood fill, with a model
  (`filled`) of the tiles each fill marks.
- `src/sim/` — the history simulation: the war map, conflicts, regions,
  polities' neighbours and conflicts, the calendar.
- `src/panel.rs` — keeping the scenario's lists in line with their counts.
- `src/io.rs` — decoding layer images and their validation.
- `src/rng.rs` — the random draws the library makes.
- `app/` — the command-line front: files and TOML formats.
- `tests/` — tests of the library on concrete values.

Fractional quantities (habitability, populations, resources, colours in
HSL, screen positions) are not held by the library: habitability enters it
in thousandths, the rest stays with the simulation around it.
