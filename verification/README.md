# Blue Marble Front

The rules of a real-time strategy game of global conquest, as a verified library. Players claim
tiles of a 1350 by 675 map of the Earth, grow troops and gold, launch attacks on each other and on
the wilderness, build cities, and win once they hold 80 percent of the land.

- `src/` is the library, verified with Verus. Every rule is a function on plain values with a
  contract; laws that relate several of them are public proof functions beside them.
- `app/` is the SpacetimeDB module around it: the tables, the reducers, and the troop arithmetic in
  floating point, whose outcomes the library asks for and books. It embeds the baked terrain of the
  map, `assets/terrain_1350x675.bin`, one byte per tile.
- `tests/` runs the library.

| Module | What it holds |
|--------|---------------|
| `grid`, `rng`, `rounding`, `quantity` | tiles and chunks, seeds, single-precision whole numbers, troop quantities |
| `tables`, `error` | the rows of the game, and the answers to refused requests |
| `chunks` | chunk rows, and the cache through which a step reads and writes them |
| `lobby`, `spawn` | creating, joining, leaving and starting matches, chat, spawning |
| `front`, `queue`, `attack`, `launch` | borders and priorities, the conquest queue, attacks during a step, launches and retreats |
| `bots` | whom bots attack, and when |
| `economy` | gold, cities, growth |
| `clock` | ticks, steps, and winning |
| `territory`, `conquest` | what holds of tile counts, tracked chunks and attacks throughout a match |
