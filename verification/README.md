# libautark

The project model and scheduling core of Autark, an experimental audio
tool, written in Verus.

The library (`src/`) holds what can be stated and proved:

- `ids`, `arena`: identifiers and the slot maps that store nodes, sockets,
  tracks, clips and links, each seen as a map from an identifier's integer
  form to its value.
- `model::graph`: the flow graph. Nodes, their sockets, links; walks up and
  down the graph; the topological sort (fails exactly when the nodes have no
  topological order); adding a link (refused for incompatible kinds and for
  links that would close a cycle).
- `model::project`: the project (tracks, clips, graph), schedule
  compilation, and the undo history. Every edit keeps an acyclic graph
  acyclic, provided every link still comes from a registered output socket
  afterwards (removing a track can leave a link from one of its removed
  sockets).
- `engine::schedule`: compiled schedules and their buffer-slot layout.
- `engine::commands`: the edits and queries as command values, each an
  undoable step of the history.
- `model::clip`, `model::nodes`: which clips sound in a block and which
  samples they mix, as indices.
- `engine::transport`, `engine::diff`, `engine::workerpool`, errors,
  constants, ticks.

`app/` is the program around it: actors on threads, asset decoding and
resampling, the audio output, and the sample arithmetic of each node.

`tests/` runs the library on concrete projects.
