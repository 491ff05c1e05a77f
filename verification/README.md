# martinez

Martinez-Rueda polygon clipping (union, difference, exclusive or and
intersection of polygons with holes), split in two:

* `src/` is a library verified with Verus: the sweep's data structures and
  its decisions on plain values.
  * `min_heap` — the event queue, a binary heap ordered by a comparator.
  * `tree`, `tree_by_compare_segments` (splay tree) and
    `tree_by_compare_segments::list` (sorted list) — three sweep lines.
  * `splay_tree`, `sorted_list` — the arena-based structures underneath.
  * `order` — what the structures ask of a comparator, and laws about the
    positions they insert at.
  * `sweep_event`, `edge_type`, `operation` — events, edge kinds, operations.
  * `compute_fields` — which edges belong to the result and how.
  * `fill_queue` — the events of the input rings, one pair per edge.
  * `divide_segment`, `possible_intersection` — splitting edges where they
    cross or overlap, and marking overlaps.
  * `subdivide_segments` — the sweep itself, over the queue and the sweep
    line; the geometry comes in as closures.
  * `connect_edges` — selecting, sorting and linking the output events,
    where a new contour stands among the contours found, and the walk that
    joins the output events into contours.
  * `contour`, `boolean` — contours, the shortcuts of an operation, and the
    polygons that contours make.
  * `reuse` — a result kept in flat vectors that can serve again.
* `app/` holds what works on floating-point coordinates: the order of events
  and segments, segment intersection (with `robust::orient2d`), the bounding
  boxes, and the public `union`, `diff`, `xor`, `intersection` and `Boolean`
  API.
* `tests/` exercises the library.
