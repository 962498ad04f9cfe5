# golly_preds

Searches for predecessors of patterns in Life-like cellular automata: given a
pattern (and optionally what the generation before must hold), find every board
whose next generation is that pattern.

The search splits the pattern's window in halves, down to single cells; each cell
lists the 3x3 neighbourhoods that evolve into it, and each split lists the pairs of
its halves' boards that agree along the shared strip. Between depths the windows of
a layer can be culled: a board with no partner in a neighbouring window goes.

## Layout

- `src/` the verified library (Verus). The main results:
  - `predecessors::exhaustive_search` and `culled::exhaustive_search_culled` return
    exactly the predecessors of a pattern: every board found is one, and every
    predecessor is found (`law_boards_are_predecessors`, `law_predecessors_are_found`);
    culling loses none. Under B3/S23, `dead_plane::law_search_finds_life_predecessors`
    states the same in plain terms: the boards found are exactly the patterns that,
    dead outside the window, step into the target and leave the ring around it dead.
  - `ca` builds rule tables from rule strings and table files; `rle` and `format`
    read and write patterns (`rle::rle_fits` tells whether a text stays within the
    reader's 32-bit limits), and `readback` proves that written RLE reads back; `scores`, `degenerate` and `layers` cull boards;
    `deep` holds the decisions of the search over several generations.
- `tests/` tests of the library, among them searches checked against brute force.
- `app/` the command-line program: file input, output and the search loops that
  print as they go.
