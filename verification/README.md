# plmidi

A MIDI player. `src/` is its verified core: a library in which every function
carries a contract. Verus proves all of them but five, which it believes: those
of the four functions by which sheets of `nodi` are read and transposed, and
that of the function by which `rand` shuffles tracks.

- `playback` – the course of playback as a machine from inputs to actions;
  `course` – what follows from it: every message of every track is played once,
  in order and in time, and what commands change about that
- `track`, `midi` – tracks, and the sheets of `nodi` that hold their events
- `speed`, `tempo` – the playback speed and its bounds, beats per minute;
  `rounding` – whole numbers rounded as floating point does
- `display`, `text` – what the terminal shows, and how it gets there
- `state`, `gui`, `slider` – what the window shows, and what its buttons and its
  slider ask for
- `keys`, `command` – what the keys do
- `output`, `startup`, `logger` – what is opened, done and logged

There is no floating point in the library. A speed is held by its bits, a number
of beats per minute by the length of a beat, and what single or double precision
would make of them is computed on whole numbers.

`app/` is the program around it: command line, files, terminal, window and MIDI
devices. It is built for the MIDI devices of the system, for which it needs the
crate `midir` and, on Linux, the ALSA library.
