# blinkify_engine

The media engine of a lossless video editor: it decides what of a timeline can
be copied bit for bit, re-encodes only what it must, and says why.

- `src/` is the engine's logic, verified with Verus. Every public function says
  in its contract what it returns; what holds across functions (a copy keeps its
  hash, what is written is read back, every frame is accounted for) stands as a
  public proof function beside them.
- `app/` is ordinary Rust around it: processes, files, threads, the wire types
  of the interface, and the sums that need floating point.
- `tests/` runs the library on concrete values.

| module | what it holds |
| --- | --- |
| `export::plan` | the tier of each stretch of a timeline, and its causes |
| `export::execute` | commands, placing, selecting, interleaving, what is refused |
| `export::nut` | the container of the pipes between processes |
| `export::seam`, `export::sps`, `export::obu` | stitching encoded frames to copied ones |
| `export::verify`, `export::report` | proving a copy by its hashes, and telling it |
| `export::queue`, `export::overview` | jobs in order, and what is told before one |
| `keyframes` | the index of keyframes, and what of a file it covers |
| `playback`, `preview`, `filmstrip` | clock, transport, lanes, buffers, thumbnails |
| `orchestrator` | which process may run, and how its progress reads |

Two calls leave the verified code and are believed: SHA-256 (`sha2`) and the
lossy decoding of UTF-8 (`String::from_utf8_lossy`). Each is a private function
whose doc comment says what is claimed of it.
