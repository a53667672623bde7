# graphc

Verified tools for matrices of the forested graph complex.

- `src/` is the library, verified with Verus: graphs on at most 64 vertices
  stored as adjacency bit masks, their subforests, canonical labelling
  (`labelling::lemma_canonical_form`: isomorphic graphs, with colours that
  the isomorphism keeps, get the same canonical adjacency rows once the
  search has run to its end, which `canonical_labels_col` reports; the
  automorphisms returned are all of them, each once),
  the forested graphs with the unmarking and contracting differentials,
  the girth filtration of the subforests (`filtration`),
  the table that numbers the rows of the `d_u + d_c` matrix and its
  entries, the Euler characteristics from the dimensions, the whole pruning
  of sparse matrices in the SMS format (`pruning::prune_pipeline`), and row
  reduction modulo a prime.
- `app/` holds the programs around it: reading and writing files, command
  line arguments and the parallel loops (`forested`, `filtrations`, `smsprune`,
  `representatives` and the smaller tools).
- `tests/` runs the library on concrete graphs and matrices.
