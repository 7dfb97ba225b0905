# hexmod_yog

Hex Casting for the Yog mod loader: programmable magic drawn as patterns on a
hex grid. The library in `src/` holds the logic, with contracts that Verus
proves:

- `math`: hex directions, angles, coordinates and patterns, the compact
  pattern code and the validity of a traced pattern;
- `text`: the string splitting and integer text the storage format needs;
- `iota`: the values of the casting VM, their storage text and tolerance;
- `casting`: spell lists, actions, mishaps and the casting VM itself, which
  runs a pattern against a caster's stack;
- `grid`: the drawing session of the casting grid.

`app/` connects the library to the Yog host: registration, drawing with the
host's graphics API, mouse events and packets. Doubles are handed between
the two as their IEEE-754 bits; the formatting and parsing of doubles stays
in `app/`.
