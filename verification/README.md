# difft_file_viewer

A three-pane viewer for [difftastic](https://github.com/wilfred/difftastic): files A and B are
compared with `difft --display json`, and a third file C is built by applying syntax blocks of
A or B into it, and by deleting or moving blocks of C, with undo.

The decisions of the viewer are a library verified with Verus (`src/`):

| Module | What it holds |
|--------|---------------|
| `text` | String helpers (trim, prefixes, byte slicing, decimal and hex digits) |
| `line_ending` | Line splitting, line-ending detection and joining |
| `model` | difft's JSON model, conversion of the current format, syntax block selection |
| `segments` | Coloured segments of a line from difft's spans, tab expansion |
| `edit` | File C edits: insert a block, clear a block, move a block |
| `history` | Bounded undo history of file C |
| `view` | What each row of the three panes shows |
| `controller` | The viewer's state and its handlers for clicks, Esc, undo and quit |
| `cli` | Command-line parsing |
| `paths`, `probe`, `format` | C/C++ detection, locating `difft`, the clang-format cache |

`app/` is the program around it: it runs `difft` and `clang-format`, reads and writes files,
parses JSON with serde, and drives the controller from a terminal.

```text
difft-file-viewer [--difft PATH] <file-a> <file-b> [<file-c>]
```
