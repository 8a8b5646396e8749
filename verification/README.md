# photo_graph

A node-based image editor: a graph of image-processing nodes, edited by commands
sent from a browser, and processed into a PNG.

The library in `src/` is verified with Verus:

- `graph`: the graph itself (nodes, edges with their layers, default input edges,
  command history), its invariant, and the operations that keep it: adding and
  removing nodes and edges, cycle detection, layer computation.
- `walk`: walks, reachability and longest walks over an edge list, with the
  breadth-first search and the longest-walk computation the graph uses.
- `commands`: the editing commands and what each one does to a graph.
- `schedule`: the order in which values pass along the edges when a graph is
  processed.
- `node`, `nodes`, `catalog`: the node kinds, their sockets and default values.
- `laws`: properties of the graph operations, stated and proved.
- `modes`, `pixel`, `raster`: the integer parts of image processing (mode
  selection, 8-bit color formulas, the resize node's layout).
- `text`, `util`: parsing command arguments, cleaning file names, and the small
  decisions of the web server.
- `upload`: checking an uploaded image's name and decoding it (with the `image`
  crate) before it is stored.

`app/` is the web server (HTTP, database, sessions, password hashing) and the
floating-point image processing; it calls the library for every decision above.
