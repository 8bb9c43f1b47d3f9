//! Positions in Forsyth-Edwards notation, with `*` for the duck.
use vstd::prelude::*;

use crate::board::{Board, CastlingRights, Position};
use crate::common::{Color, File, Man, Piece, Rank, Square};
use crate::text::{chars_of, is_word, parse_number, split_at, split_whitespace};
use crate::{board, text};

verus! {

broadcast use crate::common::group_squares;

/// What one square of a placement holds.
#[derive(Clone, Copy, Debug, PartialEq, Eq, Structural)]
pub enum Cell {
    Empty,
    Man(Man),
    Duck,
}

/// The man that a letter stands for: capitals are White's.
pub open spec fn man_of(c: char) -> Option<Man> {
    match c {
        'P' => Some(Man { color: Color::White, piece: Piece::Pawn }),
        'N' => Some(Man { color: Color::White, piece: Piece::Knight }),
        'B' => Some(Man { color: Color::White, piece: Piece::Bishop }),
        'R' => Some(Man { color: Color::White, piece: Piece::Rook }),
        'Q' => Some(Man { color: Color::White, piece: Piece::Queen }),
        'K' => Some(Man { color: Color::White, piece: Piece::King }),
        'p' => Some(Man { color: Color::Black, piece: Piece::Pawn }),
        'n' => Some(Man { color: Color::Black, piece: Piece::Knight }),
        'b' => Some(Man { color: Color::Black, piece: Piece::Bishop }),
        'r' => Some(Man { color: Color::Black, piece: Piece::Rook }),
        'q' => Some(Man { color: Color::Black, piece: Piece::Queen }),
        'k' => Some(Man { color: Color::Black, piece: Piece::King }),
        _ => None,
    }
}

/// The cells that one character of a rank stands for.
pub open spec fn cells_of(c: char) -> Option<Seq<Cell>> {
    if '1' <= c <= '8' {
        Some(Seq::new((c as u32 - 48) as nat, |i: int| Cell::Empty))
    } else if c == '*' {
        Some(seq![Cell::Duck])
    } else {
        match man_of(c) {
            Some(m) => Some(seq![Cell::Man(m)]),
            None => None,
        }
    }
}

/// The cells that `row` stands for from character `i` on, after the cells `done`.
pub open spec fn cells_from(row: Seq<char>, i: int, done: Seq<Cell>) -> Option<Seq<Cell>>
    decreases row.len() - i,
{
    if i >= row.len() {
        Some(done)
    } else {
        match cells_of(row[i]) {
            Some(cells) => cells_from(row, i + 1, done + cells),
            None => None,
        }
    }
}

/// The cells of one rank, if the rank is well written and full.
pub open spec fn rank_cells(row: Seq<char>) -> Option<Seq<Cell>> {
    match cells_from(row, 0, seq![]) {
        Some(cells) => if cells.len() == 8 {
            Some(cells)
        } else {
            None
        },
        None => None,
    }
}

/// Whether `rows` are eight well-written ranks.
pub open spec fn full_rows(rows: Seq<Seq<char>>) -> bool {
    rows.len() == 8 && forall|k: int| 0 <= k < 8 ==> rank_cells(#[trigger] rows[k]) is Some
}

/// The cell on the square with number `i`; the first row is the eighth rank.
pub open spec fn cell_at(rows: Seq<Seq<char>>, i: int) -> Cell {
    rank_cells(rows[7 - i / 8])->0[i % 8]
}

/// What stands on the squares.
pub open spec fn placed(rows: Seq<Seq<char>>) -> Seq<Option<Man>> {
    Seq::new(
        64,
        |i: int|
            match cell_at(rows, i) {
                Cell::Man(m) => Some(m),
                _ => None,
            },
    )
}

/// Whether at most one square holds the duck.
pub open spec fn one_duck(rows: Seq<Seq<char>>) -> bool {
    forall|i: int, j: int|
        0 <= i < 64 && 0 <= j < 64 && #[trigger] cell_at(rows, i) == Cell::Duck
            && #[trigger] cell_at(rows, j) == Cell::Duck ==> i == j
}

/// Where the duck stands, if it is on the board once.
pub open spec fn duck_in(rows: Seq<Seq<char>>, i: int) -> Option<Square>
    decreases 64 - i,
{
    if i >= 64 {
        None
    } else if cell_at(rows, i) == Cell::Duck {
        Some(Square::of(i))
    } else {
        duck_in(rows, i + 1)
    }
}

/// The rights of `color` with the right of the rook on `file` added: the king stands on its back
/// rank, and the side of the king on which the rook stands has no right yet.
pub open spec fn add_right(
    rights: CastlingRights,
    king: Option<Square>,
    color: Color,
    file: File,
) -> Option<CastlingRights> {
    match king {
        Some(k) => if k.rank.seen_by(color) != 0 {
            None
        } else if file.at() > k.file.at() && rights.short is None {
            Some(CastlingRights { short: Some(file), long: rights.long })
        } else if file.at() < k.file.at() && rights.long is None {
            Some(CastlingRights { short: rights.short, long: Some(file) })
        } else {
            None
        },
        None => None,
    }
}

/// The color and the file that a castling letter stands for. `K` and `Q` are the corners.
pub open spec fn right_of(c: char) -> Option<(Color, File)> {
    if 'A' <= c <= 'H' {
        Some((Color::White, File::of(c as u32 - 65)))
    } else if 'a' <= c <= 'h' {
        Some((Color::Black, File::of(c as u32 - 97)))
    } else {
        match c {
            'K' => Some((Color::White, File::H)),
            'Q' => Some((Color::White, File::A)),
            'k' => Some((Color::Black, File::H)),
            'q' => Some((Color::Black, File::A)),
            _ => None,
        }
    }
}

/// The rights of both sides after the letters of `field` from `i` on.
pub open spec fn rights_from(
    squares: Seq<Option<Man>>,
    field: Seq<char>,
    i: int,
    white: CastlingRights,
    black: CastlingRights,
) -> Option<(CastlingRights, CastlingRights)>
    decreases field.len() - i,
{
    if i >= field.len() {
        Some((white, black))
    } else {
        match right_of(field[i]) {
            Some((Color::White, file)) => match add_right(
                white,
                board::king_from(squares, Color::White, 0),
                Color::White,
                file,
            ) {
                Some(rights) => rights_from(squares, field, i + 1, rights, black),
                None => None,
            },
            Some((Color::Black, file)) => match add_right(
                black,
                board::king_from(squares, Color::Black, 0),
                Color::Black,
                file,
            ) {
                Some(rights) => rights_from(squares, field, i + 1, white, rights),
                None => None,
            },
            None => None,
        }
    }
}

/// No castling rights.
pub open spec fn no_rights() -> CastlingRights {
    CastlingRights { short: None, long: None }
}

/// The castling rights that a field stands for.
pub open spec fn castling_field(squares: Seq<Option<Man>>, field: Seq<char>) -> Option<
    (CastlingRights, CastlingRights),
> {
    if field == "-"@ {
        Some((no_rights(), no_rights()))
    } else {
        rights_from(squares, field, 0, no_rights(), no_rights())
    }
}

/// The square that two characters name.
pub open spec fn square_of(s: Seq<char>) -> Option<Square> {
    if s.len() == 2 && 'a' <= s[0] <= 'h' && '1' <= s[1] <= '8' {
        Some(Square { file: File::of(s[0] as u32 - 97), rank: Rank::of(s[1] as u32 - 49) })
    } else {
        None
    }
}

/// The side to move that a field stands for.
pub open spec fn side_field(field: Seq<char>) -> Option<Color> {
    if field == "w"@ {
        Some(Color::White)
    } else if field == "b"@ {
        Some(Color::Black)
    } else {
        None
    }
}

/// The file on which a pawn may be taken in passing. The square lies behind the pawn, as the side
/// to move sees it on the sixth rank.
pub open spec fn passing_field(field: Seq<char>, stm: Color) -> Option<Option<File>> {
    if field == "-"@ {
        Some(None)
    } else {
        match square_of(field) {
            Some(s) => if s.rank.seen_by(stm) == 5 {
                Some(Some(s.file))
            } else {
                None
            },
            None => None,
        }
    }
}

/// The position that the six fields of a text stand for.
pub open spec fn position_of(fen: Seq<char>) -> Option<Position> {
    let fields = text::words(fen, 0);
    if fields.len() != 6 {
        None
    } else {
        let rows = text::pieces(fields[0], '/', 0);
        let side = side_field(fields[1]);
        if !full_rows(rows) || !one_duck(rows) || side is None {
            None
        } else {
            match (
                castling_field(placed(rows), fields[2]),
                passing_field(fields[3], side->0),
                text::number(fields[4], 255),
                text::number(fields[5], 65535),
            ) {
                (Some((white, black)), Some(file), Some(hmc), Some(fmc)) => Some(
                    Position {
                        squares: placed(rows),
                        stm: side->0,
                        white_castling: white,
                        black_castling: black,
                        en_passant: file,
                        duck: duck_in(rows, 0),
                        hmc: hmc as u8,
                        fmc: fmc as u16,
                    },
                ),
                _ => None,
            }
        }
    }
}

/// The man that a letter stands for.
pub fn man_from(c: char) -> (r: Option<Man>)
    ensures
        r == man_of(c),
{
    match c {
        'P' => Some(Man { color: Color::White, piece: Piece::Pawn }),
        'N' => Some(Man { color: Color::White, piece: Piece::Knight }),
        'B' => Some(Man { color: Color::White, piece: Piece::Bishop }),
        'R' => Some(Man { color: Color::White, piece: Piece::Rook }),
        'Q' => Some(Man { color: Color::White, piece: Piece::Queen }),
        'K' => Some(Man { color: Color::White, piece: Piece::King }),
        'p' => Some(Man { color: Color::Black, piece: Piece::Pawn }),
        'n' => Some(Man { color: Color::Black, piece: Piece::Knight }),
        'b' => Some(Man { color: Color::Black, piece: Piece::Bishop }),
        'r' => Some(Man { color: Color::Black, piece: Piece::Rook }),
        'q' => Some(Man { color: Color::Black, piece: Piece::Queen }),
        'k' => Some(Man { color: Color::Black, piece: Piece::King }),
        _ => None,
    }
}

proof fn lemma_cells_grow(row: Seq<char>, i: int, done: Seq<Cell>)
    requires
        0 <= i <= row.len(),
    ensures
        cells_from(row, i, done) matches Some(cells) ==> cells.len() >= done.len(),
    decreases row.len() - i,
{
    if i < row.len() {
        match cells_of(row[i]) {
            Some(cells) => lemma_cells_grow(row, i + 1, done + cells),
            None => {},
        }
    }
}

/// The cells of one rank.
fn read_rank(row: &[char]) -> (r: Option<Vec<Cell>>)
    ensures
        match (r, rank_cells(row@)) {
            (Some(a), Some(b)) => a@ == b,
            (None, None) => true,
            _ => false,
        },
        r matches Some(a) ==> a@.len() == 8,
{
    let mut cells: Vec<Cell> = Vec::new();
    let mut i: usize = 0;
    while i < row.len()
        invariant
            i <= row@.len(),
            cells@.len() <= 8,
            cells_from(row@, 0, seq![]) == cells_from(row@, i as int, cells@),
        decreases row@.len() - i,
    {
        let c = row[i];
        let ghost before = cells@;
        if '1' <= c && c <= '8' {
            let n = c as u32 - 48;
            let mut k: u32 = 0;
            while k < n
                invariant
                    k <= n <= 8,
                    before.len() <= 8,
                    cells@ == before + Seq::new(k as nat, |j: int| Cell::Empty),
                decreases n - k,
            {
                cells.push(Cell::Empty);
                k += 1;
                assert(cells@ =~= before + Seq::new(k as nat, |j: int| Cell::Empty));
            }
        } else if c == '*' {
            cells.push(Cell::Duck);
            assert(cells@ =~= before + seq![Cell::Duck]);
        } else {
            match man_from(c) {
                Some(m) => {
                    cells.push(Cell::Man(m));
                    assert(cells@ =~= before + seq![Cell::Man(m)]);
                },
                None => return None,
            }
        }
        assert(cells@ == before + cells_of(c)->0);
        i += 1;
        if cells.len() > 8 {
            proof {
                lemma_cells_grow(row@, i as int, cells@);
            }
            return None;
        }
    }
    if cells.len() == 8 {
        Some(cells)
    } else {
        None
    }
}

/// The square that two characters name.
pub fn square(s: &[char]) -> (r: Option<Square>)
    ensures
        r == square_of(s@),
{
    if s.len() != 2 {
        return None;
    }
    let f = s[0];
    let r = s[1];
    if f < 'a' || f > 'h' || r < '1' || r > '8' {
        return None;
    }
    Some(
        Square::new(File::index((f as u32 - 97) as usize), Rank::index((r as u32 - 49) as usize)),
    )
}

/// The rights of `color` with the right of the rook on `file` added.
pub fn with_right(
    rights: CastlingRights,
    king: Option<Square>,
    color: Color,
    file: File,
) -> (r: Option<CastlingRights>)
    ensures
        r == add_right(rights, king, color, file),
{
    match king {
        Some(k) => {
            let back = k.rank.relative_to(color);
            if back.position() != 0 {
                None
            } else if file.position() > k.file.position() && rights.short.is_none() {
                Some(CastlingRights { short: Some(file), long: rights.long })
            } else if file.position() < k.file.position() && rights.long.is_none() {
                Some(CastlingRights { short: rights.short, long: Some(file) })
            } else {
                None
            }
        },
        None => None,
    }
}

/// The color and the file that a castling letter stands for.
fn right_from(c: char) -> (r: Option<(Color, File)>)
    ensures
        r == right_of(c),
{
    if 'A' <= c && c <= 'H' {
        Some((Color::White, File::index((c as u32 - 65) as usize)))
    } else if 'a' <= c && c <= 'h' {
        Some((Color::Black, File::index((c as u32 - 97) as usize)))
    } else {
        match c {
            'K' => Some((Color::White, File::H)),
            'Q' => Some((Color::White, File::A)),
            'k' => Some((Color::Black, File::H)),
            'q' => Some((Color::Black, File::A)),
            _ => None,
        }
    }
}

/// The castling rights that a field stands for on `board`.
fn read_castling(board: &Board, field: &[char]) -> (r: Option<(CastlingRights, CastlingRights)>)
    ensures
        r == castling_field(board@.squares, field@),
{
    let mut white = CastlingRights { short: None, long: None };
    let mut black = CastlingRights { short: None, long: None };
    if is_word(field, "-") {
        return Some((white, black));
    }
    let white_king = board.try_king(Color::White);
    let black_king = board.try_king(Color::Black);
    let mut i: usize = 0;
    while i < field.len()
        invariant
            i <= field@.len(),
            field@ != "-"@,
            white_king == board::king_from(board@.squares, Color::White, 0),
            black_king == board::king_from(board@.squares, Color::Black, 0),
            rights_from(board@.squares, field@, 0, no_rights(), no_rights()) == rights_from(
                board@.squares,
                field@,
                i as int,
                white,
                black,
            ),
        decreases field@.len() - i,
    {
        match right_from(field[i]) {
            Some((Color::White, file)) => match with_right(white, white_king, Color::White, file) {
                Some(rights) => white = rights,
                None => return None,
            },
            Some((Color::Black, file)) => match with_right(black, black_king, Color::Black, file) {
                Some(rights) => black = rights,
                None => return None,
            },
            None => return None,
        }
        i += 1;
    }
    Some((white, black))
}

/// A board that holds nothing, with White to move.
fn empty_board() -> (r: Board)
    ensures
        r@.squares == Seq::new(64, |i: int| None::<Man>),
        r@.duck is None,
{
    Board {
        squares: [None; 64],
        stm: Color::White,
        white_castling: CastlingRights { short: None, long: None },
        black_castling: CastlingRights { short: None, long: None },
        en_passant: None,
        duck: None,
        hmc: 0,
        fmc: 1,
    }
}

/// Whether `duck` is where the duck stands on the squares below `n`.
spec fn duck_below(rows: Seq<Seq<char>>, duck: Option<Square>, n: int) -> bool {
    match duck {
        Some(d) => d.at() < n && cell_at(rows, d.at()) == Cell::Duck && forall|j: int|
            0 <= j < n && j != d.at() ==> #[trigger] cell_at(rows, j) != Cell::Duck,
        None => forall|j: int| 0 <= j < n ==> #[trigger] cell_at(rows, j) != Cell::Duck,
    }
}

proof fn lemma_duck_in(rows: Seq<Seq<char>>, duck: Option<Square>, i: int)
    requires
        duck_below(rows, duck, 64),
        0 <= i <= 64,
        duck matches Some(d) ==> i <= d.at(),
    ensures
        duck_in(rows, i) == duck,
    decreases 64 - i,
{
    if i < 64 && duck != Some(Square::of(i)) {
        lemma_duck_in(rows, duck, i + 1);
    }
}

/// A board with the men and the duck of a placement.
fn read_placement(rows: &Vec<Vec<char>>) -> (r: Option<Board>)
    ensures
        match r {
            Some(b) => {
                &&& full_rows(text::texts(rows@))
                &&& one_duck(text::texts(rows@))
                &&& b@.squares == placed(text::texts(rows@))
                &&& b@.duck == duck_in(text::texts(rows@), 0)
            },
            None => !full_rows(text::texts(rows@)) || !one_duck(text::texts(rows@)),
        },
{
    if rows.len() != 8 {
        return None;
    }
    let ghost all = text::texts(rows@);
    let mut board = empty_board();
    let mut r: usize = 0;
    while r < 8
        invariant
            r <= 8,
            all == text::texts(rows@),
            all.len() == 8,
            forall|k: int| 8 - r <= k < 8 ==> rank_cells(#[trigger] all[k]) is Some,
            forall|i: int| 0 <= i < 8 * r ==> #[trigger] board@.squares[i] == placed(all)[i],
            duck_below(all, board.duck, 8 * r),
        decreases 8 - r,
    {
        assert(all[7 - r] == rows@[7 - r]@);
        let cells = match read_rank(rows[7 - r].as_slice()) {
            Some(cells) => cells,
            None => return None,
        };
        let mut f: usize = 0;
        while f < 8
            invariant
                f <= 8,
                r < 8,
                all.len() == 8,
                all == text::texts(rows@),
                rank_cells(all[7 - r]) == Some(cells@),
                cells@.len() == 8,
                forall|i: int| 0 <= i < 8 * r + f ==> #[trigger] board@.squares[i] == placed(all)[i],
                duck_below(all, board.duck, 8 * r + f),
            decreases 8 - f,
        {
            let i = 8 * r + f;
            assert(i / 8 == r && i % 8 == f);
            assert(cell_at(all, i as int) == cells@[f as int]);
            let man = match cells[f] {
                Cell::Man(m) => Some(m),
                _ => None,
            };
            let ghost before = board@.squares;
            board.squares[i] = man;
            assert(board@.squares == before.update(i as int, man));
            assert(placed(all)[i as int] == man);
            if let Cell::Duck = cells[f] {
                match board.duck {
                    Some(d) => {
                        assert(cell_at(all, d.at()) == Cell::Duck);
                        assert(!one_duck(all));
                        return None;
                    },
                    None => {
                        board.duck = Some(Square::index(i));
                    },
                }
            }
            f += 1;
        }
        r += 1;
    }
    proof {
        assert(board@.squares =~= placed(all));
        lemma_duck_in(all, board.duck, 0);
    }
    Some(board)
}

impl Board {
    /// The position that a text in Forsyth-Edwards notation stands for.
    pub fn from_fen(fen: &str) -> (r: Option<Board>)
        ensures
            match (r, position_of(fen@)) {
                (Some(b), Some(p)) => b@ == p,
                (None, None) => true,
                _ => false,
            },
    {
        let chars = chars_of(fen);
        let fields = split_whitespace(chars.as_slice());
        if fields.len() != 6 {
            return None;
        }
        let ghost all = text::texts(fields@);
        assert(forall|k: int| 0 <= k < 6 ==> all[k] == #[trigger] fields@[k]@);
        let rows = split_at(fields[0].as_slice(), '/');
        let mut board = match read_placement(&rows) {
            Some(board) => board,
            None => return None,
        };
        if is_word(fields[1].as_slice(), "w") {
            board.stm = Color::White;
        } else if is_word(fields[1].as_slice(), "b") {
            board.stm = Color::Black;
        } else {
            return None;
        }
        match read_castling(&board, fields[2].as_slice()) {
            Some((white, black)) => {
                board.white_castling = white;
                board.black_castling = black;
            },
            None => return None,
        }
        if is_word(fields[3].as_slice(), "-") {
            board.en_passant = None;
        } else {
            match square(fields[3].as_slice()) {
                Some(s) => {
                    let seen = s.rank.relative_to(board.stm);
                    if seen.position() != 5 {
                        return None;
                    }
                    board.en_passant = Some(s.file);
                },
                None => return None,
            }
        }
        match parse_number(fields[4].as_slice(), 255) {
            Some(n) => board.hmc = n as u8,
            None => return None,
        }
        match parse_number(fields[5].as_slice(), 65535) {
            Some(n) => board.fmc = n as u16,
            None => return None,
        }
        Some(board)
    }
}

} // verus!
