# justbot

A UCI chess engine. The library in `src/` holds its logic, stated in contracts and proved by
Verus; `app/` is the program around it, with standard input and output, threads, files and the
parts that need floating point.

- `types`: squares, pieces, bitboards, moves, histories, the table of positions, text
- `attacks`, `magics`, `zobrist`, `random`: what the board rests on
- `board`: positions, move generation and legality, making and taking back moves, exchanges,
  FEN and UCI notation
- `perft`: counting move sequences
- `nnue`, `evaluation`: evaluation by a network that is updated move by move
- `search`: alpha-beta search with its heuristics, move ordering, limits, iterative deepening;
  `search::account` says how a score comes about from those of the searches below and what is
  learned from it, `search::coverage` which moves count and why the others do not
- `threads`, `tools`, `uci`, `transposition`: the vote of the workers, the commands, openings

A position is a board of 64 squares with the turn, the castling rights and the en passant
square; the legal moves are defined on it by what attacks the king. Generated moves are proved
to be the legal ones, counts to be the numbers of legal lines, the evaluation to be that of the
network on the board as it stands, the line of a search to be one that can be played, and its
score to be the greatest over the moves that were tried, down to positions whose scores are
clear. A worker whose watch looks at no status and that has no limits always gives a score.

The program reads its network from the file that `EVALFILE` names.
