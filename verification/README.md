# dsd-rust

A bit-perfect command line player for macOS, around a verified library. Samples reach the DAC
exactly as the file stores them: DSD wrapped in DSD over PCM (DoP) 1.1 or sent natively, and
PCM at the file's own sample rate. It reads DSF, DSDIFF, FLAC and SACD disc images, and the cue
sheets that split a file into tracks.

## Layout

* `src/` is the library. It works on plain values -- the bytes of a file, the descriptors and
  formats of a device, counters, names -- and every function states what it returns. Verus
  proves the statements.
  * `reader` takes the containers apart: `dsf`, `dff`, `flac`, `sacd` (table of contents, sector
    demultiplexing and the lossless DST decoder), `cue`, `tags`, and `span`, which narrows a
    recording to one track of it. `open` says what a path holds, and `source` makes carrier
    samples of any of them.
  * `dop`, `native`, `audio` and `output::encoding` lay samples out for a carrier and a device.
  * `output::stream` chooses a format and renders device buffers from the queue,
    `output::setup` takes a device over and puts it back, and `output::usb` finds, claims, paces
    and feeds a DAC that plays native DSD.
  * `player`, `report` and `tui` hold the decisions a player makes and the lines it shows.
  * `bit_perfect` states what the name promises: a DSD byte, or a PCM code, can be read back
    from the buffer the device is handed.
* `app/` is the program: arguments, files, threads, the terminal, Core Audio and IOKit. It only
  plays on macOS.
* `tests/` runs the library on concrete recordings, sheets, discs, devices and folders.

## What is taken on trust

The FLAC decoder is the `claxon` crate and the queue between threads is the `rtrb` crate. The
functions that call them carry their claims in their comments, as do the few functions of the
standard library that Verus has no specification for.
