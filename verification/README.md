# lifesearch

Searches for patterns of Conway's Game of Life that move or repeat, row by row: a search node
holds the last two finished rows of a pattern and the row being built, a key node names the rows
a node completes, and a search walks the graph of nodes breadth first (keeping each level's paths
in a shared pile of key nodes, and dropping nodes whose rows were met before) or depth first
(in passes of bounded work over a tree of what is left).

The library in `src/` is written in Verus, and every function in it is verified against the
contract it states:

- `chunk_store`, `chunk_queue`, `kn_pile`: the chunked queues and the key-node pile, with the
  pile's rebuild that drops the entries no queued node needs.
- `bfs/bfs1`, `bfs/bfs2`: the breadth-first searches; `bfs/checkpoint` the saved form of a
  search state, with the law that reading a saved state gives back what was written.
- `dfs`: the depth-first search and its tree of work left; `dfs/walk` states what a search
  with a given budget finds, and `dfs_single_thread` is proved to find exactly that.
- `gol`: the Life graph (rows, neighbourhood checks, successors, printing) and the pattern
  library; `lgol`: the lattice coordinates of the generalized search.
- `weights`, `zmodule`, `euclid`, `unweighted`: graph walks with integer weights, and gcds.

`app/` is the command-line program around the library: it reads arguments and files, runs the
searches on threads, prints results and saves search states (encoding their records with
bincode). `tests/` holds the tests.
