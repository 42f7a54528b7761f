# rusty_music

An improvisational music engine for games: a bar/beat clock, a conductor
walking a chord progression, and musicians (drummers, a bassist, a soloist in
AABA form, an arpeggiator) that decide on every 16th note what to play from the
current chord and the music's intensity, plus a multisample library that picks
recorded samples by pitch, dynamic and articulation.

Layout:

- `src/` — the library, written in Verus: every function carries a contract
  and is verified. Real-valued quantities (intensities, strengths, bar
  positions) are held as *levels*, the order keys of their single-precision
  bit patterns (`src/level.rs`), so every threshold decision is made on
  integers.
- `tests/` — tests of the library.
- `app/` — the game-engine side (Bevy and bevy_seedling): the real-time clock,
  the musicians as components, walking the sample folder and loading assets.
