# hasami

A Japanese sentence splitter and the dictionary formats of a morphological analyser, written in
Verus: every function in `src/` carries a contract that Verus proves, apart from a few small
wrappers around std functions (`external_body`), whose contracts are assumed.

- `sentence/`: sentence splitting (enders, brackets, exception words), the exception matcher
  and the index of the exception table.
- `hsd/`: the `.hsd` dictionary file: the container (header and section table), metadata,
  string tables, feature records, the character double-array trie with tail compression (build,
  search, check, key listing) and the checks made when a file is loaded.
- `trie`: a byte double-array trie.
- `pos`, `lattice`: part-of-speech tables, mora counts, the least-cost path through a lattice
  of candidate words, and contextual readings of tokens.
- `mmap_dict`: rank queries over bit sets.

The tests under `tests/` run the library on concrete values.
