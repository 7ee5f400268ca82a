# my_algo

Classic data structures and algorithms, written in Verus and proved against their
contracts.

- `src/vec.rs`: a growable vector.
- `src/priority_queue/`: max-priority queues (a complete binary heap and a leftist heap)
  and heap sort.
- `src/binary_tree/`: binary trees held in a vector, in linked nodes and in doubly linked
  nodes, their traversals, and Huffman coding: the coding tree is built by merging the two
  least frequent trees each round, and the code length is proved to be the Huffman cost of
  the character counts. Bits are packed into bytes by the `bitstream-io` crate.
- `src/binary_search_tree/`: ordered maps kept in a binary search tree, an AVL tree, a
  red-black tree, a left-leaning red-black tree, a splay tree and a B-tree. Each map is
  specified by its view as a mathematical map; the balanced ones state that insertion and
  removal keep them balanced.
- `src/graph/`: directed graphs in adjacency lists, depth-first and breadth-first search
  (visit order, paths, shortest paths), cycle detection, topological order and strongly
  connected components.
- `app/`: searches that call a closure on each visited vertex, and a text rendering of a
  graph.
- `tests/`: tests run against the compiled library.
