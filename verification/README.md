# menur

An application launcher menu for Wayland compositors with the layer-shell
protocol, written in Verus.

- `src/` is the verified library: reading `.desktop` files (`entries`), the
  entry cache (`cache`), the search index (`keywords`), the decisions of the
  window's key handlers (`menu`), and the text primitives they rest on
  (`text`, `unicode`).
- `app/` is the GTK program around it: the window, the files, the
  environment and the processes.
- `tests/` runs the library on concrete inputs.
