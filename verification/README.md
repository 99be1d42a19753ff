# hello_euclid

Euclidean rhythm generation for a MIDI note-repeat effect, verified with Verus.

- `src/euclid.rs`: Bjorklund's algorithm (`bjorklund`) and pattern rotation
  (`rotate`), each with a contract that pins its result.
- `src/laws.rs`: proved properties: length and density of Euclidean
  patterns, even spacing of their hits, and the laws of rotation.
- `src/playback.rs`: the choice of the pattern the sequencer plays.
- `app/`: the nih-plug plugin shell, the floating-point sequencer timing and
  the bundling tool.
