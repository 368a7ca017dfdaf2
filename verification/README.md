# harpdrills

Harp drills written in ABC notation: each drill is a tune with up to four
voice lines (`[V: ...]`), read into a score of simultaneous beats and drawn
on a grand staff.

- `src/` is the library, verified with Verus: reading ABC (notes, key
  signatures, lengths, voices, tune headers, books of tunes), merging the
  voices into beats, the beats of each event, the staff positions and
  ledger lines of notes, the horizontal layout of events, and moving
  between drills.
- `tests/` runs the library on concrete drills and values.
- `app/` is the desktop and Android program around it (eframe/egui): it
  reads the drill book from `data/harp_drills.abc`, converts exact lengths
  to floating-point beats, and draws the staff.
