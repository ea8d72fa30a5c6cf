# mge

The core of a 2D pixel-world game engine, written in Verus: every function under
`src/` carries a contract that Verus proves.

## Layout

- `src/rng.rs`, `events.rs`, `clock.rs` — deterministic xorshift generator, event
  queues, wall-clock seeding.
- `src/materials.rs` — the material table (lookup by name, embedded defaults).
- `src/world.rs` — the falling-sand simulation: chunked pixel grid, powder, liquid
  and gas movement, reactions, mining, floating-terrain collapse, dirty-chunk export.
- `src/conserve.rs` — material counts, and the proof that a step only moves plain
  powders and liquids.
- `src/light.rs` — sky and block light on a coarse cell grid: flood fills, full and
  regional relights, emissive glow and its decay.
- `src/gen.rs`, `src/veg.rs` — the integer parts of terrain and vegetation generation.
- `src/scene.rs`, `src/tools.rs` — the world as the game sees it (torches, mining
  drops, per-frame update) and the hot-bar tools.
- `src/inventory.rs`, `src/game.rs` — bag, equipment, crafting, loot and affix rolls,
  skills, and the small game enums.
- `src/keys.rs`, `src/input.rs` — key names, key-to-action bindings, input state.
- `src/atlas.rs`, `src/sheet.rs` — texture-atlas packing and sprite-sheet cutting.
- `src/save.rs` — the run-length format of saved pixel layers.

Laws that relate several functions are public proof functions named `law_*`.

`tests/` runs the library on concrete values. `app/` is a headless runner: it reads
RON data files, does the floating-point parts of generation, items and the day
cycle, and drives the library.
