# mbrotli

A Brotli encoder whose rules are stated as contracts and proved with Verus.

- `src/` is the library. Its functions are verified, but for seven wrappers whose contracts are
  believed: five around `fearless_simd` in `backend`, one around the UTF-8 test of std in
  `framing::container`, and one around the capacity of a vector in `shared::capacity`.
  - `config`, `bound`, `driver`, `compressor`, `session`, `reader`: parameters, size bounds,
    one-shot and incremental compression. `calls` keeps what an encoder was asked and what it
    answered.
  - `encoder`: the encoders as the entry points are served by them.
  - `fast`, `greedy`, `hq`: the encoders. Matches are found, commands are chosen and blocks are
    split here; the commands are proved to reproduce the input.
  - `shared`: bit writing, the sliding window, match lengths, histograms, distances.
  - `framing`: containers of compressed resources.
  - `source`: inputs that are read at any offset.
  - `backend`: vector instructions, through `fearless_simd`.
- `tests/` runs the library on concrete inputs.
- `app/` is what surrounds it: files, readers and writers of std, error messages, encoders to
  compress with, and estimates in floating point.

What the library asks of its surroundings (estimated costs, prefix codes, dictionaries, sinks)
comes in through traits. A trait's relations say how a kind of implementation can answer, and what
it is afterwards; contracts speak of those relations, and what an implementation says of itself
carries through.
Positions and lengths that come back are measured again before they are used.
