# buffer

A text buffer for several replicas that edit one text at once. Each replica edits
its own copy and sends its operations to the others; replicas that have received
the same operations show the same text. The buffer undoes and redoes
transactions, keeps anchors and selections in place while the text changes,
compares the text with earlier versions, and keeps a syntax tree for brackets,
indentation and highlighting.

The library in `src/` is verified with Verus. Its state is modelled as a sequence
of cells, one for each byte that was ever inserted, with what inserted it, what
has deleted it, and whether it is shown.

- `document`, `fragment`, `rope`, `weave`, `splice`, `builder`: the text and its
  parts, and how an edit is woven into them.
- `local`, `remote`, `undo`, `undo_map`: edits of the replica itself, edits of
  others, and undos.
- `state`, `buffer*`: the buffer, and what each operation does to its state.
- `history`, `operation_queue`, `selection_map`, `content`, `snapshot`, `edits`,
  `indent`, `highlight`, `syntax`: what the buffer is made of.
- `proto`, `convert`: operations, selections and buffers as messages.
- `edit_laws`, `undo_laws`, `transaction_laws`, `history_laws`, `change_laws`,
  `anchor_laws`: what holds of one buffer, over several operations.
- `converge`, `replicas`, `replica_laws`, `reach`, `reach_laws`, `travel_laws`,
  `delivery_laws`, `time_laws`, `batch_laws`, `fit_laws`, `acceptance_laws`,
  `proto_laws`: what holds of several replicas.

What the buffer asks of the program around it (parsing in the background, sending
operations, reading files in again) is handed out as effects of a `ModelContext`.
`app/` performs them.
