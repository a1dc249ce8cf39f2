# oxideav-mp4

Reading of MP4 files and writing of fragmented ones, verified with Verus.

* `src/` is the library. Every function in it has a contract: what a box says is stated over the bytes of
  its payload, what a container says is stated over its children, and what a file says over its boxes. The
  laws that relate several functions are public proof functions whose names start with `law_`.
* `app/` puts the library behind the container traits of `oxideav-core`: it reads from and writes to
  streams, and asks the codecs for the one of each track.
* `tests/` runs the library on bytes.

Modules, from the bottom up:

| module | what it holds |
| --- | --- |
| `error`, `bytes`, `numbers`, `text` | errors, big-endian numbers, bounded arithmetic, texts |
| `kinds`, `boxes` | box codes, box headers, walks over the children of a container |
| `tables`, `groups`, `auxinfo`, `esds`, `cenc`, `entries` | the boxes of a sample table |
| `track`, `trak` | a track, and the boxes under `trak` |
| `index`, `meta`, `movie` | indexes, metadata, the movie box |
| `samples`, `flags`, `fragment` | samples from tables and from fragments |
| `options`, `stream` | what a track tells its users |
| `summary`, `toplevel`, `demux`, `seek` | a file as a whole, its packets, seeking |
| `emsg` | event messages |
| `frag`, `muxer` | writing of fragments |
| `roundtrip`, `roundfile` | what is read back of what was written |
