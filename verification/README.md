# wakformat

A compact file format for duck chess games, with tools to make, mix and analyse files of it.

* `src/` is the library. It is written in Verus, and its functions are proved to do what their
  contracts say, but for the few that call outside code and are taken on trust (see below).
* `tests/` runs the library on concrete games, positions and files.
* `app/` is the program: arguments, files, threads and floating-point output.

## The library

| Module | What it holds |
| --- | --- |
| `common`, `board`, `moves`, `hashing` | squares, men and moves; positions and the rules of duck chess |
| `fen`, `initial` | positions written in Forsyth-Edwards notation |
| `format`, `header`, `games` | the file header, game headers, move records and whole games |
| `pgn`, `movetext`, `draft`, `reader` | reading PGN: tokens, comments, games, files |
| `notation`, `coordinates` | moves as they are written in PGN |
| `convert`, `stored` | PGN games to stored games, and what holds of the result |
| `analyse` | statistics over stored games |
| `bullet` | positions for training |
| `interleave`, `mixing` | mixing files, and what that does to their games |
| `cli` | what the arguments of the program mean |
| `text`, `sums`, `error` | characters and numbers, sums, errors |

Laws that relate several functions are public proof functions whose names begin with `law_`. What
the library takes on trust from outside is marked `external_body`, `assume_specification` or
`external_type_specification`, with a comment that says what is claimed.

## The format

A file begins with eight bytes: `WAKF`, the version and flags that are zero. Games follow. A game is
a header of 32 bytes, records of five bytes, and five zero bytes. The header holds the first position
and the outcome; a record holds a move in 22 bits and the score from White's view.
