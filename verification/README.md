# reminder

Send reminders to the Windows Notification Center: a toast with a title, a
message, a severity level (icon colour, glyph and sound), optional buttons and
a click action, sent once or repeated.

The logic is a Verus-verified library under `src/`; `app/` is the Windows
program around it.

| Module             | What it holds                                                   |
| ------------------ | --------------------------------------------------------------- |
| `src/cli.rs`       | command-line parsing, against a model of every outcome          |
| `src/toast.rs`     | the toast XML payload, XML escaping, `file:///` URIs            |
| `src/tags.rs`      | the element count and order of the toast payload                |
| `src/level.rs`     | the four severity levels                                        |
| `src/png.rs`       | PNG encoder (CRC-32, Adler-32, stored DEFLATE), with a decoder model |
| `src/ico.rs`       | ICO container for PNG images                                    |
| `src/callback.rs`  | click callbacks: tokens, `reminder://run/<token>` URIs, the JSON written, expiry |
| `src/stored.rs`    | reading a stored action back, when it may run, listing order    |
| `src/schedule.rs`  | pacing a run: delay, repeats, pauses, exit status               |
| `src/text.rs`, `src/bytes.rs` | string and byte helpers                              |
| `app/`             | `main`, WinRT toasts, registry, Start Menu shortcut, files, icon drawing |

Besides each function's contract, the library proves: escaped XML holds no
markup, unescapes to the input, works character by character and leaves
text without special characters alone; a toast payload holds only its own
tags, in the schema's order (visual, audio, actions with one action per
button), with exactly two text elements whatever the user text; a file URI percent-decodes to the path's bytes
and holds only unreserved characters and `%XX` escapes; an encoded PNG
decodes to its pixels, a stored zlib stream has the expected length, and an
ICO directory entry has its fixed byte layout and locates its image; every generated token is valid and every
action URI parses back to its token; the stored JSON of any action reads
back unchanged; a URI can only select a file inside the action store; the
listing holds exactly the live actions, newest first and stable; expiry is permanent; an accepted command
line is one Windows takes, and repeated `--button` flags give that many
buttons up to five; and a run shows exactly `repeat` toasts, failing iff one
failed.
