# macroquad-toolkit

Utilities for tile-based games built on macroquad. The logic is a library
verified with Verus; drawing, input, files and anything computed in `f32` sit
in a thin crate around it.

## Layout

- `src/` — the verified library (`macroquad_toolkit`):
  - `grid` — tile positions, `Grid` (rows of tiles) and `FlatGrid` (row-major
    vector), fog of war, Bresenham line of sight and visibility discs,
    breadth-first shortest walks, flood fill and step distances;
  - `events` — a FIFO event bus;
  - `data_loader` — loading JSON arrays keyed by an identifier field, and a
    registry of items by identifier;
  - `rng` — a seeded xorshift64* generator, and shuffling and picking over
    macroquad's shared generator;
  - `persistence` — the file names keys and save slots are stored under,
    listing save slots, reading the version a save records, and turning saved
    text into values and back;
  - `fx::typewriter` — revealing text character by character against a
    shared budget;
  - `ui` — money formatting, display names, when buttons fire and how they
    look, toggles and steppers, and greedy word wrapping against a caller's
    "does this line fit" test;
  - `assets`, `states`, `notifications`, `audio` — the small pieces of those
    areas that are not drawing.
- `app/` — the surrounding crate: macroquad drawing and input, cameras,
  colors, notifications with timers, file and directory access, serde forms of
  the library's types, and the `f32` parts of the text reveal and money
  formatting.
- `tests/` — tests of the library.

## What is proved

Most public functions of the library state their result exactly in their
contracts (for instance, `bfs_path` returns a shortest walk or `None` exactly
when none exists, `flood_fill` returns exactly the reachable region, and the
registry behaves as a map). Where the result comes from serde or from
macroquad's shared random generator — parsing JSON into a caller's type,
serialising a caller's value, drawing random numbers — the contract states
what holds of every outcome, and a separate function that takes the outside
result as an argument states exactly what is done with it. Laws that relate
several functions are stated as public proof functions whose names begin
with `law_`.
