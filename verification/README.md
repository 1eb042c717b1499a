# jive

A minimalistic music player that shuffles a directory of music, avoiding
repetition while favouring what the listener plays through.

The crate is in two parts:

* `src/` is the library, verified with Verus: time and track events, the
  history and catalog of a collection and the file it is stored in, ratings,
  the shuffle and the player's state machine, the command lines of `jive` and
  `jive-debug`, the panel's text, and the report of what the shuffle computes.
  Each public function states what it returns in its contract, and the laws
  that relate several functions (what a save brings back on loading, what a
  store gives back on a read, that a track never follows itself while another
  could play) are proof functions.
* `app/` is the program around it: reading and writing files, walking the
  music directory, running mpv, and drawing the panel in the terminal. The
  same program, installed as `jive-debug`, prints the shuffle's numbers.

Point jive at a music directory with `--root`; the directory is remembered.
Press `n` for another track and `q` to leave.
