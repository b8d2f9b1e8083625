# voxtype_benchmark

Times the installed builds of a dictation program on this machine and recommends
one of them.

- `src/` is the library. Everything in it is verified with Verus: which builds
  can run, the order of warm-ups and timed rounds, what a build's output says,
  its word error rate, the median of its times, the recommendation, and the
  layout of the report.
- `app/` is the program around it: processes, files, the microphone, JSON, and
  all floating-point arithmetic.
- `tests/` runs the library.

Times are held in the library as the bits of binary64 numbers, which it orders
but does not compute with. Word error rates are held as fractions and compared
exactly: a rate that is worse than the best by just the tolerance still counts
as within it.

What the library takes on trust are a few functions of the standard library and
of `hound`; each is wrapped in a function marked `external_body` (or given an
`assume_specification`) whose comment says what is claimed of it.
