# chess_prep

Opening preparation against a known opponent.  The opponent's games (from
the Lichess archive) are read into a tree of positions; the user's
repertoire (a PGN file with variations) is walked against that tree to find
the positions the user can reach; the positions where the opponent leaves
well-known ground are kept, checked with Stockfish, ranked, and written out
as an annotated PGN file.

## Layout

- `src/` is the verified library (Verus):
  - `tree.rs`: the opponent's tree and the visitor that builds it;
  - `reachability.rs`: the repertoire visitor and the walk of the
    opponent's tree, with its laws;
  - `lines.rs`: parent entries and the lines of moves they describe;
  - `profiler.rs`: the choice of the novelties;
  - `analyzer.rs`: the decisions around the engine's analysis;
  - `engine.rs`: evaluations and the reading of the engine's output;
  - `scorer.rs`: novelty and complexity scores and the final ranking;
  - `annotator.rs`: the annotated PGN games;
  - `games.rs`: splitting PGN text into games, the archive's address and
    answers;
  - `config.rs`: settings and profiles;
  - `chess.rs`: the chess rules, from `shakmaty`;
  - `text.rs`: character-level helpers.
- `app/` is the command-line program: arguments, files, the network, the
  PGN reader, the Stockfish process, and the display of scores as decimal
  numbers.
- `tests/` runs the library on concrete games and positions.

Pawn-valued settings are held in hundredths, and scores as exact integers,
so that the library has no floating point.
