# mdlive

The logic of a live preview server for Markdown and other text files, and of the
desktop program around it, written in Rust and verified with Verus.

- `src/` is the library: which files are served and how they are shown, what is
  tracked of a workspace, what follows from changes on disk, which page answers a
  request, and what the desktop program does about its windows, its menu and its
  updates. It is verified but for the calls named below.
- `app/` performs the input and output: files, sockets, the file watcher, windows
  and dialogs. It also runs the Markdown parser, and compiles and fills in the
  template, since each of these can panic. It hands plain values to the library
  and acts on what comes back.
- `tests/` runs the library.

| Module      | What it holds                                                        |
|-------------|----------------------------------------------------------------------|
| `text`      | searching, splitting, escaping, decimal numbers                       |
| `order`     | the order of texts and bytes, and a stable sort                       |
| `path`      | paths as bytes: components, extensions, prefixes, their order         |
| `table`     | a map from texts to values                                            |
| `time`      | times of files                                                        |
| `json`      | texts out of JSON objects                                             |
| `util`      | kinds of files by extension, scans of directories                     |
| `state`     | the workspace: tracked files, their HTML, the messages about them     |
| `moves`     | moving and removing directories of tracked files                      |
| `watcher`   | what follows from changes on disk                                     |
| `websocket` | what a connected page is told                                         |
| `pages`     | the pages that are sent                                               |
| `server`    | finding a running server, requests and responses, window addresses    |
| `desktop`   | windows, sessions and events of the desktop program                   |
| `menu`      | its menu                                                              |
| `update`    | its check for updates                                                 |

Paths are sequences of bytes, as on Unix, and need not be valid UTF-8. Proof
functions whose names start with `law_` state what holds of the library as a
whole.

## What is trusted

The contracts of these calls are believed, not proved. Each stands behind one item
of the library, whose comment says what is claimed.

| Call                                                 | Where              |
|------------------------------------------------------|--------------------|
| `String::push`                                       | `text`             |
| `str::to_lowercase`                                  | `text`             |
| `std::str::from_utf8`                                | `text`             |
| `String::from_utf8_lossy`                            | `text`             |
| `serde_json::from_slice`                             | `json`             |
| `serde_json::Value::get` and `as_str`                | `json`             |
