# tile_automata

A cellular automaton on square, hexagonal, triangular and octagon-and-square
tilings, with a wave-function-collapse that picks a piece of 3D geometry for every
corner-and-height cell of the dual tiling so that neighbouring walls fit.

The library under `src/` is written in Verus and verified:

- `tiling`: tile indices, neighbours, vertices and dual tilings.
- `simulation`: the automaton's cells, its rules and one step of it.
- `visuals/geom`: orientations, wall and layer profiles, handle sets and the
  storage that finds geometry by its profiles.
- `visuals/collapse`, `visuals/collapse_state`: one cell of the collapse and the
  queues that drive the whole collapse step by step.
- `menus`, `ui`, `tile_inspect`, `text`: the decisions behind the menus, the
  rule editor and the debug commands, and their parsing.

The maps of the game (cell states, queued updates, rules per tile shape, geometry
filed by key) are kept in the library as association lists: `Vec`s of key-value
pairs whose keys are distinct, read as maps by `assoc::assoc_map`. Their order is the
order in which they are filled and processed, which the contracts state. Verus
specifies std's `HashMap` only through the `Hash` and `Eq` of its keys, and for the
structs used as keys here (tile indices, tile shapes, cell keys, with derived
impls) it proves nothing of a lookup; lists of pairs with distinct keys give exact
contracts instead.

`app/` is the game around it (window, input, meshes, rendering), written against
the library and the game engine; nothing there is verified.
