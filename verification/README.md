# rust-seek

A desktop tool that searches a directory tree for files whose names or
contents match a pattern. The library under `src/` holds its logic, written
in Verus and proved against its contracts:

- `text`: character and UTF-8 byte arithmetic on strings.
- `matcher`: building a search pattern (regular expression or literal,
  with or without case) and finding its matches.
- `encoding`: telling binary data from text and decoding text files
  (UTF-8, UTF-16, GBK, Big5).
- `searcher`: matching file names and file contents, match lines with
  their context, size formatting, file icons.
- `app`: the search window's state machine: pattern history, starting and
  cancelling searches, receiving results, filtering, collapsing, status text.
- `sync_rules`: exclusion rules and flush timing for folder synchronisation.
- `canvas`: drawing rectangles and thick lines on RGBA buffers.

`app/` is the program around it: the egui window, the directory walk on a
worker thread, file reading, preferences and state files. The screenshot
annotation window in `app/annotate_app.rs` is kept out of the program's
module tree, as the program itself does not build it in.

`tests/` runs the library on concrete inputs.
