//! The position in which a game of PGN starts.
use crate::board::{Board, CastlingRights, Position};
use crate::common::{CastlingDirection, Color, Man, Piece, Rank, Square};
use crate::error::{invalid, Error, ErrorKind};
use crate::fen::square;
use crate::text::{chars_of, is_word, split_at, split_whitespace};
use crate::{board, common, error, fen, header, moves, text};
use vstd::prelude::*;

verus! {

broadcast use crate::common::group_squares;

/// How often `c` occurs in `s`.
pub open spec fn times(s: Seq<char>, c: char) -> int
    decreases s.len(),
{
    if s.len() == 0 {
        0
    } else {
        times(s.drop_last(), c) + if s.last() == c {
            1int
        } else {
            0
        }
    }
}

/// What is wrong with a rank of a placement from character `i` on, when the characters before it
/// take `width` squares. The outer ranks hold no pawns.
pub open spec fn row_fault(row: Seq<char>, outer: bool, i: int, width: int) -> Option<Seq<char>>
    decreases row.len() - i,
{
    if i >= row.len() {
        if width == 8 {
            None
        } else {
            Some("invalid FEN rank width"@)
        }
    } else if '1' <= row[i] <= '8' {
        row_fault(row, outer, i + 1, width + (row[i] as u32 - 48))
    } else if outer && (row[i] == 'p' || row[i] == 'P') {
        Some("pawn on FEN back rank"@)
    } else if row[i] == '*' || fen::man_of(row[i]) is Some {
        row_fault(row, outer, i + 1, width + 1)
    } else {
        Some("invalid FEN board character"@)
    }
}

/// What is wrong with the ranks of a placement from rank `k` on.
pub open spec fn rows_fault(rows: Seq<Seq<char>>, k: int) -> Option<Seq<char>>
    decreases rows.len() - k,
{
    if k >= rows.len() {
        None
    } else {
        match row_fault(rows[k], k == 0 || k == 7, 0, 0) {
            Some(m) => Some(m),
            None => rows_fault(rows, k + 1),
        }
    }
}

/// Whether the fields of a text can be those of a position with one king on each side.
pub open spec fn plausible(fields: Seq<Seq<char>>) -> bool {
    &&& fields.len() == 6
    &&& text::pieces(fields[0], '/', 0).len() == 8
    &&& times(fields[0], 'K') == 1
    &&& times(fields[0], 'k') == 1
    &&& fields[3] == "-"@ || fen::square_of(fields[3]) is Some
}

/// Whether every castling right of `color` has its rook.
pub open spec fn rooks_there(p: Position, color: Color) -> bool {
    forall|dir: CastlingDirection|
        (#[trigger] p.rights(color).of(dir)) is Some ==> p.man(
            p.rights(color).of(dir)->0.at(),
            common::relative(0, color),
        ) == Some(Man { color, piece: Piece::Rook })
}

/// The position in which a game starts that begins with `fen`, or in the usual one.
pub open spec fn first_position(fen: Option<Seq<char>>) -> Result<
    Position,
    (ErrorKind, Seq<char>),
> {
    match fen {
        None => Ok(board::start_position()),
        Some(s) => {
            let fields = text::words(s, 0);
            let fault = rows_fault(text::pieces(fields[0], '/', 0), 0);
            if !plausible(fields) {
                Err(error::bad("invalid initial PGN FEN"@))
            } else if fault is Some {
                Err(error::bad(fault->0))
            } else {
                match fen::position_of(s) {
                    None => Err(error::bad("invalid initial PGN FEN"@)),
                    Some(p) => if !rooks_there(p, Color::White) || !rooks_there(p, Color::Black) {
                        Err(error::bad("FEN castling right has no rook"@))
                    } else if !header::passing_pawn(p) {
                        Err(error::bad("FEN en passant has no opposing pawn"@))
                    } else {
                        Ok(p)
                    },
                }
            }
        },
    }
}

/// How often `c` occurs in `s`.
fn count(s: &[char], c: char) -> (n: usize)
    ensures
        n == times(s@, c),
{
    let mut n: usize = 0;
    let mut i: usize = 0;
    while i < s.len()
        invariant
            i <= s@.len(),
            n == times(s@.take(i as int), c),
            n <= i,
        decreases s@.len() - i,
    {
        if s[i] == c {
            n += 1;
        }
        i += 1;
        assert(s@.take(i as int).drop_last() =~= s@.take(i - 1));
        assert(s@.take(i as int).last() == s@[i - 1]);
    }
    assert(s@.take(i as int) =~= s@);
    n
}

/// The lesser of a width and 9.
spec fn capped(width: int) -> int {
    if width < 9 {
        width
    } else {
        9
    }
}

/// Checks a rank of a placement.
fn check_row(row: &[char], outer: bool) -> (r: Result<(), Error>)
    ensures
        error::agrees(r, header::checked(row_fault(row@, outer, 0, 0), ())),
{
    let mut seen: usize = 0;
    let ghost mut width: int = 0;
    let mut i: usize = 0;
    while i < row.len()
        invariant
            i <= row@.len(),
            seen == capped(width),
            row_fault(row@, outer, 0, 0) == row_fault(row@, outer, i as int, width),
        decreases row@.len() - i,
    {
        let c = row[i];
        let more: usize = if '1' <= c && c <= '8' {
            (c as u32 - 48) as usize
        } else if outer && (c == 'p' || c == 'P') {
            return Err(invalid("pawn on FEN back rank"));
        } else if c == '*' || fen::man_from(c).is_some() {
            1
        } else {
            return Err(invalid("invalid FEN board character"));
        };
        seen = if seen + more < 9 {
            seen + more
        } else {
            9
        };
        proof {
            width = width + more;
        }
        i += 1;
    }
    if seen == 8 {
        Ok(())
    } else {
        Err(invalid("invalid FEN rank width"))
    }
}

/// Checks the ranks of a placement.
fn check_rows(rows: &Vec<Vec<char>>) -> (r: Result<(), Error>)
    ensures
        error::agrees(r, header::checked(rows_fault(text::texts(rows@), 0), ())),
{
    let mut k: usize = 0;
    while k < rows.len()
        invariant
            k <= rows@.len(),
            rows_fault(text::texts(rows@), 0) == rows_fault(text::texts(rows@), k as int),
        decreases rows@.len() - k,
    {
        assert(text::texts(rows@)[k as int] == rows@[k as int]@);
        match check_row(rows[k].as_slice(), k == 0 || k == 7) {
            Ok(()) => {},
            Err(e) => {
                return Err(e);
            },
        }
        k += 1;
    }
    Ok(())
}

/// Whether the right of `color` in direction `dir`, if there is one, has its rook.
fn has_rook(board: &Board, color: Color, dir: CastlingDirection) -> (r: bool)
    ensures
        r == (board@.rights(color).of(dir) is Some ==> board@.man(
            board@.rights(color).of(dir)->0.at(),
            common::relative(0, color),
        ) == Some(Man { color, piece: Piece::Rook })),
{
    match board.castling_rights(color).get(dir) {
        Some(file) => board.holds(
            Square::new(file, Rank::First.relative_to(color)),
            Man { color, piece: Piece::Rook },
        ),
        None => true,
    }
}

/// Whether every castling right of `color` has its rook.
fn has_rooks(board: &Board, color: Color) -> (r: bool)
    ensures
        r == rooks_there(board@, color),
{
    let short = has_rook(board, color, CastlingDirection::Short);
    let long = has_rook(board, color, CastlingDirection::Long);
    proof {
        let (s, l) = (CastlingDirection::Short, CastlingDirection::Long);
        assert(board@.rights(color).of(s) is Some ==> rooks_there(board@, color) ==> short);
        assert(board@.rights(color).of(l) is Some ==> rooks_there(board@, color) ==> long);
        assert forall|dir: CastlingDirection|
            short && long && (#[trigger] board@.rights(color).of(dir)) is Some implies board@.man(
            board@.rights(color).of(dir)->0.at(),
            common::relative(0, color),
        ) == Some(Man { color, piece: Piece::Rook }) by {
            match dir {
                CastlingDirection::Short => {},
                CastlingDirection::Long => {},
            }
        }
    }
    short && long
}

/// Whether the pawn that may be taken in passing is there.
fn has_passing_pawn(board: &Board) -> (r: bool)
    ensures
        r == header::passing_pawn(board@),
{
    match board.en_passant {
        Some(file) => board.holds(
            Square::new(file, Rank::Fifth.relative_to(board.stm)),
            Man { color: board.stm.other(), piece: Piece::Pawn },
        ),
        None => true,
    }
}

/// The position in which a game starts: the one that `fen` describes, or the usual one.
pub fn initial_board(fen: Option<&str>) -> (r: Result<Board, Error>)
    ensures
        match (
            r,
            first_position(
                match fen {
                    Some(s) => Some(s@),
                    None => None,
                },
            ),
        ) {
            (Ok(b), Ok(p)) => b@ == p,
            (Err(e), Err(f)) => e@ == f,
            _ => false,
        },
{
    let fen = match fen {
        Some(fen) => fen,
        None => {
            return Ok(Board::startpos());
        },
    };
    let s = chars_of(fen);
    let fields = split_whitespace(s.as_slice());
    let ghost words = text::words(s@, 0);
    assert(words == text::texts(fields@));
    if fields.len() != 6 {
        return Err(invalid("invalid initial PGN FEN"));
    }
    assert(words[0] == fields@[0]@);
    assert(words[3] == fields@[3]@);
    let rows = split_at(fields[0].as_slice(), '/');
    assert(rows@.len() == text::texts(rows@).len());
    if rows.len() != 8 || count(fields[0].as_slice(), 'K') != 1 || count(
        fields[0].as_slice(),
        'k',
    ) != 1 || (!is_word(fields[3].as_slice(), "-") && square(fields[3].as_slice()).is_none()) {
        return Err(invalid("invalid initial PGN FEN"));
    }
    match check_rows(&rows) {
        Ok(()) => {},
        Err(e) => {
            return Err(e);
        },
    }
    let board = match Board::from_fen(fen) {
        Some(board) => board,
        None => {
            return Err(invalid("invalid initial PGN FEN"));
        },
    };
    if !has_rooks(&board, Color::White) || !has_rooks(&board, Color::Black) {
        return Err(invalid("FEN castling right has no rook"));
    }
    if !has_passing_pawn(&board) {
        return Err(invalid("FEN en passant has no opposing pawn"));
    }
    Ok(board)
}

proof fn lemma_row_without_pawns(row: Seq<char>, i: int, width: int, j: int)
    requires
        0 <= i <= j < row.len(),
        row_fault(row, true, i, width) is None,
    ensures
        row[j] != 'p' && row[j] != 'P',
    decreases j - i,
{
    if i < j {
        if '1' <= row[i] <= '8' {
            lemma_row_without_pawns(row, i + 1, width + (row[i] as u32 - 48), j);
        } else {
            lemma_row_without_pawns(row, i + 1, width + 1, j);
        }
    }
}

proof fn lemma_rows(rows: Seq<Seq<char>>, k: int, j: int)
    requires
        0 <= k <= j < rows.len(),
        rows_fault(rows, k) is None,
    ensures
        row_fault(rows[j], j == 0 || j == 7, 0, 0) is None,
    decreases j - k,
{
    if k < j {
        lemma_rows(rows, k + 1, j);
    }
}

/// Whether a cell holds a pawn.
spec fn pawn_cell(c: fen::Cell) -> bool {
    c matches fen::Cell::Man(m) && m.piece == Piece::Pawn
}

proof fn lemma_cells_without_pawns(row: Seq<char>, i: int, done: Seq<fen::Cell>)
    requires
        0 <= i <= row.len(),
        forall|j: int| 0 <= j < row.len() ==> #[trigger] row[j] != 'p' && row[j] != 'P',
        forall|j: int| 0 <= j < done.len() ==> !pawn_cell(#[trigger] done[j]),
        fen::cells_from(row, i, done) is Some,
    ensures
        ({
            let cells = fen::cells_from(row, i, done)->0;
            forall|j: int| 0 <= j < cells.len() ==> !pawn_cell(#[trigger] cells[j])
        }),
    decreases row.len() - i,
{
    if i < row.len() {
        let c = row[i];
        assert(c != 'p' && c != 'P');
        let cells = fen::cells_of(c)->0;
        assert forall|j: int| 0 <= j < cells.len() implies !pawn_cell(#[trigger] cells[j]) by {
            if !('1' <= c <= '8') && c != '*' {
                assert(cells[0] == fen::Cell::Man(fen::man_of(c)->0));
            }
        }
        lemma_cells_without_pawns(row, i + 1, done + cells);
    }
}

/// Whether castling rights belong to a king on its back rank, each to its side of the king.
spec fn sided(rights: CastlingRights, king: Option<Square>, color: Color) -> bool {
    &&& rights.short matches Some(f) ==> (king matches Some(k) && k.rank.seen_by(color) == 0
        && f.at() > k.file.at())
    &&& rights.long matches Some(f) ==> (king matches Some(k) && k.rank.seen_by(color) == 0
        && f.at() < k.file.at())
}

proof fn lemma_rights_sided(
    squares: Seq<Option<Man>>,
    field: Seq<char>,
    i: int,
    white: CastlingRights,
    black: CastlingRights,
)
    requires
        0 <= i <= field.len(),
        sided(white, board::king_from(squares, Color::White, 0), Color::White),
        sided(black, board::king_from(squares, Color::Black, 0), Color::Black),
        fen::rights_from(squares, field, i, white, black) is Some,
    ensures
        ({
            let (w, b) = fen::rights_from(squares, field, i, white, black)->0;
            &&& sided(w, board::king_from(squares, Color::White, 0), Color::White)
            &&& sided(b, board::king_from(squares, Color::Black, 0), Color::Black)
        }),
    decreases field.len() - i,
{
    if i < field.len() {
        let (color, file) = fen::right_of(field[i])->0;
        let king = board::king_from(squares, color, 0);
        match color {
            Color::White => {
                let more = fen::add_right(white, king, color, file)->0;
                lemma_rights_sided(squares, field, i + 1, more, black);
            },
            Color::Black => {
                let more = fen::add_right(black, king, color, file)->0;
                lemma_rights_sided(squares, field, i + 1, white, more);
            },
        }
    }
}

proof fn lemma_rights_fit(p: Position, color: Color)
    requires
        sided(p.rights(color), board::king_from(p.squares, color, 0), color),
        rooks_there(p, color),
    ensures
        header::rights_fit(p, color),
{
    assert(p.rights(color).of(CastlingDirection::Short) == p.rights(color).short);
    assert(p.rights(color).of(CastlingDirection::Long) == p.rights(color).long);
}

proof fn lemma_start_fits()
    ensures
        header::fitting(board::start_position()),
{
    let p = board::start_position();
    moves::lemma_first_king(p.squares, Color::White, 4, 0);
    moves::lemma_first_king(p.squares, Color::Black, 60, 0);
    assert(Square::of(4).rank.at() == 0 && Square::of(4).file.at() == 4);
    assert(Square::of(60).rank.at() == 7 && Square::of(60).file.at() == 4);
}

/// The position in which a game starts is one that a header can hold.
pub proof fn law_first_position_fits(fen: Option<Seq<char>>)
    requires
        first_position(fen) is Ok,
    ensures
        header::fitting(first_position(fen)->Ok_0),
{
    match fen {
        None => {
            lemma_start_fits();
        },
        Some(s) => {
            let p = fen::position_of(s)->0;
            let fields = text::words(s, 0);
            let rows = text::pieces(fields[0], '/', 0);
            assert forall|i: int|
                0 <= i < 64 && (i < 8 || i >= 56) && p.squares[i] is Some implies (
            #[trigger] p.squares[i])->0.piece != Piece::Pawn by {
                let k = 7 - i / 8;
                assert(k == 0 || k == 7);
                lemma_rows(rows, 0, k);
                assert forall|j: int| 0 <= j < rows[k].len() implies #[trigger] rows[k][j] != 'p'
                    && rows[k][j] != 'P' by {
                    lemma_row_without_pawns(rows[k], 0, 0, j);
                }
                assert(fen::rank_cells(rows[k]) is Some);
                lemma_cells_without_pawns(rows[k], 0, seq![]);
                assert(!pawn_cell(fen::cell_at(rows, i)));
            }
            lemma_castling_field(p.squares, fields[2]);
            lemma_rights_fit(p, Color::White);
            lemma_rights_fit(p, Color::Black);
        },
    }
}

proof fn lemma_castling_field(squares: Seq<Option<Man>>, field: Seq<char>)
    requires
        fen::castling_field(squares, field) is Some,
    ensures
        ({
            let (w, b) = fen::castling_field(squares, field)->0;
            &&& sided(w, board::king_from(squares, Color::White, 0), Color::White)
            &&& sided(b, board::king_from(squares, Color::Black, 0), Color::Black)
        }),
{
    if field != "-"@ {
        lemma_rights_sided(squares, field, 0, fen::no_rights(), fen::no_rights());
    }
}

} // verus!
