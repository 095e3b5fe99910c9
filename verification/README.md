# robot_simulation

A multi-robot simulation on a grid: scouts explore a map, report obstacles and
deposits to a central base, and collectors fetch the deposits one unit at a
time along shortest paths and bring them back to the base.

The library under `src/` is written in Verus and carries its specifications:

- `map.rs` — the grid (`WorldMap`), its shape invariant, neighbors, paths,
  map generation (base placement, random deposits).
- `collector.rs` — collectors as a state machine, and `find_path`, a
  breadth-first search proved to return a shortest path, or `None` exactly
  when the goal cannot be reached; among shortest paths, the one that turns
  earliest in the order up, down, left, right.
- `path_order.rs` — that order on walks, and its facts.
- `robot.rs` — scouts: scanning their surroundings, moving, learning from the
  base's history.
- `base.rs` — the base: known obstacles and deposits, history, bounded log,
  delivered totals.
- `simulation.rs` — the reservation of deposits between collectors, how a
  scout keeps up with the base's history, and what the display counts.
- `random.rs` — the one call into `rand`.

`app/` is the terminal program: Perlin-noise terrain, the robots' threads,
and the ratatui display.
