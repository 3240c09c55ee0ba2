# overlook

Overlook explores Piton specifications: open a folder that holds a
`piton.config.pi` and the whole spec is drawn as a map of its folders, files
and declarations, with the connections between them.

The crate is in two parts.

- `src/` is the library, written in Verus and verified. It holds the `.pi`
  parser, the loader that turns a folder into a specbase (folder walk, path
  handling, module resolution, re-export following, edge building and the
  reachability marking), the language-server session (its state, the framing
  of its messages and the reading of what the server sends, parsed by
  `serde_json` behind one trusted call), the editor buffer, the highlighting
  spans, the toolbar and status bar models, node outlines, and the
  application's messages and sidebar steps. Each public function states its result in its
  contract; the laws that relate several functions stand as public proof
  functions (`law_*`).
- `app/` is the program around it: the window and all drawing, file and
  directory access, the language-server process and the JSON it is sent,
  and syntax classification. It hands the library plain values and takes plain values
  back.

Tests of the library are under `tests/`.
