# Partially persistent red-black tree

A red-black tree in which every insertion or removal makes a new version while every
earlier version stays readable. Nodes are "fat": each keeps the fields it was created
with plus a log of at most `MAX_MODS_SIZE` changes, each tagged with the version from
which it is visible. A change to a node whose log is full copies the node and hangs the
copy under the node's parent, which may in turn be copied, up to the root.

Nodes live in a store (`Vec<Node>`) and refer to each other by index. Parent links are
not versioned: they describe the latest version only, which is the only one that
changes.

Layout of `src/`:

- `node.rs`: nodes, change logs, reading a field at a version, and
  `Node::update_with_node`, which records a change (appending or copying).
- `tree.rs`: rotations, searches, insertion and removal with their red-black fix-ups.
- `persistent.rs`: `PersistentStructure`, the list of version roots, with insertion,
  removal, successor queries and in-order listings of any version, and the proof that
  later operations leave earlier versions reading as before.

`app/main.rs` reads a file of commands (`INC v`, `REM v`, `SUC x version`,
`IMP version`) and prints the answers.
