# QP-trie nodes, verified

The node layer of a QP-trie (quadbit-popcount patricia trie) keyed by byte
strings, written in Verus with its behaviour proved.

Keys are read as strings of nybbles, low half of each byte first. A branch
chooses one nybble position and files its children under the nybble index
of their keys there (the nybble plus one, or zero past the end of a key).
Leaves hold a key and its value.

Layout of `src/`:

- `nybble.rs`: nybble addressing (`nybble_index`, `nybble_mismatch`) and byte
  string comparisons.
- `sparse.rs`: the sparse array of up to seventeen slots a branch keeps its
  children in.
- `tree.rs`: the mathematical model of a node (`Tree`), its well-formedness,
  the key/value map it stores, the search paths, and the lemmas that the
  operations' proofs are built from.
- `node.rs`: the executable nodes (`Leaf`, `Branch`, `Node`) and their
  operations: lookup, insertion, removal, prefix queries, iteration,
  equality and copying, each with its contract over the model.
- `laws.rs`: properties relating several operations.

`tests/` exercises the library on concrete tries.
