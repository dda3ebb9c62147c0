# rowan

Generic, immutable, lossless syntax trees, verified with Verus.

Green nodes and tokens are compact, immutable and structurally shared. Red cursors are transient
handles that add a position to them. A transactional editor changes a copy of a subtree by stable
IDs and gives a new tree back; the source never changes.

## Layout

- `src/model.rs`: trees, paths, offsets and texts as mathematical values.
- `src/text.rs`, `src/utility_types.rs`: byte offsets and ranges, node-or-token unions.
- `src/green/`: tokens, nodes, the interning cache, the builder, structural hashing.
- `src/cursor*.rs`: navigation, range and token queries, traversal, functional replacement.
- `src/cursor_editor.rs` and `src/cursor_editor/`: the transactional editor.
- `src/syntax_text.rs`: text views over subtrees.
- `src/api.rs`, `src/ast.rs`: typed wrappers, AST pointers.
- `src/debug.rs`, `src/api_debug.rs`, `src/messages.rs`, `src/outline.rs`: texts and outlines.
- `src/green/laws.rs`, `src/green/builder_laws.rs`, `src/cursor_laws.rs`, `src/editor_laws.rs`: what
  holds between operations.
- `src/hashing.rs`: hashers with a record of what is handed over to them.
- `src/shared.rs`: contracts of the shared pointers and strings that trees are stored in.
- `app/`: trait impls of the standard library and of other crates around the library.

A value of a shared handle stands for its allocation: in contracts two handles are equal exactly when
they share it. What a handle says is its view, a `Tree`.
