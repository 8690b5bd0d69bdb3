# wfeusk

A word placement engine for Scrabble-like games, written in Verus: given a board and a
rack of tiles, it finds every word of a dictionary that can be played, and scores
placements.

- `src/board.rs`: the 15×15 board, its bonus layout, placing tiles, runs of tiles
  along a line, and scoring.
- `src/letters/`: sets of letters allowed in a square, the rack, and letter values.
- `src/tile.rs`: tiles (letters and wildcards).
- `src/dawg.rs`: the dictionary graph of `libdawg`, behind trusted items.
- `src/small_vec.rs`: the inline vectors of `smallvec`, behind trusted items.
- `src/wordlist.rs`: the dictionary built from word list lines, and the letters that
  fill a gap in a word.
- `src/matcher/`: the search for the words of a row and of the whole board, with the
  proofs that the placements it finds are exactly the legal plays (soundness in
  `legal.rs`, completeness in `state.rs`, both put together in `mod.rs`).
- `app/`: the command line program (argument parsing, reading the word list file,
  printing).
