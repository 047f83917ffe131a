# osmgraphing

Parsing openstreetmap-data (`*.osm.pbf`) and simple text-maps (`*.fmi`) into offset-graphs, and
routing on them, with the graph-building, the parsing of lines and tags, and the searches proved
correct by Verus.

- `src/` is the verified library:
  - `helpers/`: text (trimming, words, ASCII-case), numbers from text, a stable merge-sort.
  - `network/`: indices, containers and accessors of the graph, its builder (sorting nodes and
    edges, removing duplicates, offsets, shortcuts that follow their edges), units of length and
    routes.
  - `osm/`: street-types, speed-limits and oneway-tags of ways, and how ways become edges.
  - `parsing/`: the lines of fmi-files (counts, node- and edge-lines, metrics per edge).
  - `routing/`: an offset-graph with its builder, an Astar on integer costs (proved optimal for
    estimations that never overestimate, a Dijkstra without any), and paths whose shortcuts are
    unfolded.
  - `units/`: integer metrics and speeds.
- `tests/` runs the library on small maps.
- `app/` reads files, computes with floats (distances, float-weighted searches), prints graphs
  and serves the user-interface.
