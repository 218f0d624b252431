# bath

Mesh, image and MIDI utilities of a small game toolkit, with the integer
logic verified by Verus.

- `src/` is the verified library:
  - `collision_mask`, `collision_mask_util`, `grid_walk`: collision polygons
    from pixel masks (boundary tracing, colinear filtering, tile regions,
    contours, convex hulls).
  - `fixed_func`: welding and topology of triangle meshes (welded edges,
    neighbours, silhouettes, facing), the dual graph and the unfolding tree
    of a papercraft model (`dsu`), gore traversal, viewports, small silhouette
    helpers.
  - `geometry`: chart and patch forests of unfoldings, shared edges, the
    vertex numbering of unfolded charts, weld topology for smoothing.
  - `fu4seoi3`: the placed cells of the room editor, the undo/redo of its
    edits, the line format of its configuration files, and the draw counts
    and edit-stack rows of its HUD.
  - `midi`, `keys`: reading Standard MIDI Files into note segments, WAVE
    bytes, note names and the keyboard's key bindings.
  - `union_find`, `stable_order`: shared specifications and lemmas.
- `tests/` runs the library on concrete values.
- `app/` is the command-line program around the library: file I/O, the
  synthesizer, and the floating-point parts (quantizing positions, normals,
  timing in seconds, dithering).
