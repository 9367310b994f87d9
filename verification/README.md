# geo

Two small programs around nearest points, with their logic verified by Verus.

- **Closest pair.** An interactive canvas: points are placed with the mouse
  or at random, the divide-and-conquer closest-pair algorithm runs on them,
  and its search can be played back frame by frame.
- **LSH.** An experiment with locality-sensitive hashing of random bit
  vectors under the Hamming distance: how often the hash tables find the
  true nearest distance of a query.

## Layout

- `src/` — the verified library.
  - `datatype` — values compared with a tolerance (`Total`), over fixed-point
    stand-ins for `f32` and `f64`.
  - `point`, `pairs`, `strip` — points with coordinates in units of 10^-9
    (the tolerance within which coordinates count as equal), exact squared
    distances, stable sorts, and what a closest pair is. `merge` of two
    pairs, and `ByDist`'s comparison, count lengths less than one unit apart
    as equal (`merge` keeps the first); the searches compare lengths exactly, so that the pair they find
    is a closest one.
  - `alg` — the closest pair over owned vectors, refusing points that share
    their `x`.
  - `closest_pair` — the closest pair in place, reporting every step to a
    `Recording`; `animation` says which shapes and frames an animated
    search reports, in order.
  - `visual` — frames of shapes, the arena that holds the shapes on screen,
    playback, the message line, and what drawing a shape comes to.
  - `canvas` — picking the point under the pointer, and thinning the points
    until none are close.
  - `lsh` — hash functions, tables, and the answer to a query.
  - `text` — numbers and points written as text.
- `app/` — the window, the drawing in floating point, and the command line
  of the LSH experiment (`app lsh D N M K L R`).
- `tests/` — tests of the library.
