# carrot

A small 2D graphics engine: layers of render objects, and the triangulation
of polygons into triangle meshes.  The library (`src/`) is verified with
Verus; the program around it (`app/`) opens a window with winit, computes
the `f32` geometry with glam and animates a layer with tokio.

## Library

- `geometry::segment_tree` — the ordered tree of polygon edges the sweep
  keeps, with insertion, removal and the search for the nearest edge on
  the left.
- `geometry::monotone` — the sweep from the top of a polygon (its
  vertices counter-clockwise) down that records the diagonals cutting it
  into pieces monotone in y.
- `geometry::polygon_selector` — the walk that finds the piece on the
  right of a start edge, turning at each vertex into the first edge
  counter-clockwise from the one it came along, and counts the directed
  edges it walked (each at most once).
- `geometry::triangulation` — the stack walk that cuts a monotone piece
  into triangles, and the whole triangulation of a polygon.  The geometric
  answers (which vertex lies higher, which turn runs inside) come from the
  caller as tables over the vertices (`PlaneTables`).
- `geometry::mesh` — joining meshes and the triangle indices of a grid.
- `graphics2d::layer`, `graphics2d::engine` — layers of render objects
  queued by key, and the engine that files layers by label.
- `app_setup` — the application's answer to window events.

## Program

`app/` holds `main`, the window state, the shapes with their `f32`
outlines and colours, and the plane answers for the triangulation.
