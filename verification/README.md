# zuzu_designer

A form designer for Zuzu GUI XML. The document is a `Window` element tree;
the designer adds, removes, moves, edits and pastes elements, writes the tree
as GUI XML and reads it back.

The library under `src/` is verified with Verus:

- `element`, `props`: the element tree and its attribute maps, with their
  mathematical models, the searches by identifier and the renumbering.
- `catalog`: the elements of Zuzu GUI XML and the attributes each accepts.
- `xml_write`, `xml_read`: writing a tree as XML text, and checking and
  converting what the XML parser (`roxmltree`) reads.
- `document`: the document and its editing operations; it is always a
  window whose identifiers are all below the next one to hand out.
- `outline`: the rows and labels of the tree view and the window title.
- `paths`, `laws`, `unique`, `xml_laws`, `layout_laws`: facts about paths and
  the laws that relate the operations: removing undoes adding, moving back
  undoes moving, identifiers stay unique, what is written reads back, an
  unchanged edit form and an unchanged tree view change nothing.

`app/` is the GTK program around the library: windows, dialogs, the
clipboard, files, and the preview rendered by the Zuzu interpreter.
