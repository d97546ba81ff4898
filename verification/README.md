# type_animals

Typing the spell of a registered animal brings up that animal's image.

- `src/` is the verified library (Verus): the spell book read from and
  written to JSON (`spell_book`), the typing progress of each spell and the
  step that a typed letter makes (`key_counts`, with its laws in
  `key_laws`), decoding of the key names the keyboard listener prints
  (`keys`), the per-line handling and display-loop decisions (`key_events`),
  the booking of image windows and their placement (`images`), and the data
  folder layout (`app_paths`). `assoc` holds the shared model of a list of
  (key, value) entries.
- `app/` runs the program: it finds the data folder, starts the keyboard
  listener, reads its output, and opens image windows with SDL2.
- `tests/` exercises the library on concrete values.

## Collections

Each keyed table is a `Vec` of entries with an invariant that no key occurs
twice, rather than a `HashMap`:

- spell to image path (`SpellBook`) and spell to letters left (`KeyCounts`)
  are keyed by `String`. vstd's `HashMap` specification does not let proofs
  about `String` keys go through (lookups by a `String` key are not tied to
  its contents). Typing also walks the spells in order, and a `HashMap` walk
  order is not specified at all. A `Vec` of entries gives both a lookup by
  contents and a fixed walk order (the order in which spells were stored).
- image id to window (`ImageManager`) is keyed by `u32`. vstd would specify
  lookups there, but taking expired windows down walks every entry and
  keeps the others. The `Vec` makes that walk, and its result (exactly the
  images whose time is not over, in order), provable. The SDL windows
  themselves stay in a `HashMap<u32, _>` in `app/`.
