# treex

An interactive directory tree for the terminal, and the same tree in a browser,
live-synced. What is expanded stays expanded, the tree scrolls, and the
filesystem is watched so things appear and disappear as they happen.

The library is written in Verus: every function states in its contract what it
returns or changes, and the contracts are proved.

## Layout

| | |
|---|---|
| `src/node.rs`, `src/arena.rs` | the nodes, the slots they live in, and what makes them one tree |
| `src/tree.rs` | the model: expansion, the cursor, the file on display, refreshes |
| `src/shown.rs` | the tree flattened into rows |
| `src/state.rs` | `Session`, the one place several views meet |
| `src/laws.rs`, `src/visibility.rs` | what can be relied on about a tree across changes |
| `src/redraw.rs` | which changes views have to draw |
| `src/scan.rs`, `src/order.rs` | the listing of one directory, and its order |
| `src/git.rs`, `src/highlight.rs` | what git and `bat` are asked, and what their answers mean |
| `src/preview.rs` | reading a file under a size limit |
| `src/path.rs`, `src/text.rs` | paths and text |
| `src/tui/` | the terminal: layout, drawing, keys, clicks, one screen's state |
| `src/web/` | the server: requests, responses, routes, what each socket is owed |
| `src/watch.rs` | what filesystem events come to |
| `src/cli.rs` | the printed tree, and what the command line means |
| `app/` | the binary: arguments, disk, terminal, sockets, watcher |

The library touches neither disk nor network nor terminal. A command that needs
a directory read stops there: `Session::reading` says which one, and
`Session::feed` takes the listing and goes on. The same holds for files, for git
and `bat`, and for what arrives on a socket.

## What is proved

Laws that span functions are public proof functions, beside what they are
about. Among them:

- rows are in depth-first order, and every path can be rebuilt from depth and
  name alone;
- a refresh keeps open what was open, and drops exactly what is gone;
- a command that changes anything moves the revision on, and the shape moves
  exactly where the rows come out different;
- shutting a directory and opening it again gives the rows back;
- a file can be read exactly where it has a row, and everything in the tree is
  below its root;
- no view is left pointing at a file that is gone;
- the colors drawn over a file cover its text and no more;
- every marker, divider and button answers where it is drawn.

## What is trusted

A few functions of other crates and of the standard library are called behind
contracts that are taken on trust: the layout and the measuring of `ratatui`,
`httparse`, the WebSocket accept key, `flate2`, and from the standard library
UTF-8 decoding, appending a character, lowercase and quoting. Each says so above
its definition.
