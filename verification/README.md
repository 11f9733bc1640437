# rapid_type

A Japanese typing game whose rules are a verified library.

- `src/` is the library, verified with Verus:
  - `engine` builds, from a kana reading, an automaton of every romaji spelling
    (`romaji_table`, `options` give the spellings of each kana group; `spellings` proves that
    every group that can be spelled has a non-empty spelling), checks typed keys
    against it and keeps a guide, a shortest spelling of what is left (`guide`, proved
    shortest and first among equals; `language` proves that the automaton accepts exactly
    the spellings of the reading);
  - `ruby` parses question text with ruby annotations (`[漢字|かんじ]`);
  - `question`, `stats`, `session`, `score`, `menu` hold a game: its questions, the keys
    typed, the clock, the rank and the menu screens;
  - `simple_engine` is the smaller engine that follows a single spelling.
- `tests/` runs the library.
- `app/` is the egui program around it: windows, fonts, the clock's display, floating-point
  scores and the serializable forms of the library's types.
