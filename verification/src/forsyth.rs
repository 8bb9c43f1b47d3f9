//! Positions written in Forsyth-Edwards notation are read back.
use crate::board::{CastlingRights, Position};
use crate::common::{Color, File, Man, Piece, Rank, Square};
use crate::error::ErrorKind;
use crate::fen::Cell;
use crate::{board, coordinates, fen, header, initial, san, spelling, text};
use vstd::prelude::*;

verus! {

broadcast use crate::common::group_squares;

/// The letter of a man: White's men have capitals.
pub open spec fn man_letter(m: Man) -> char {
    match (m.color, m.piece) {
        (Color::White, Piece::Pawn) => 'P',
        (Color::White, Piece::Knight) => 'N',
        (Color::White, Piece::Bishop) => 'B',
        (Color::White, Piece::Rook) => 'R',
        (Color::White, Piece::Queen) => 'Q',
        (Color::White, Piece::King) => 'K',
        (Color::Black, Piece::Pawn) => 'p',
        (Color::Black, Piece::Knight) => 'n',
        (Color::Black, Piece::Bishop) => 'b',
        (Color::Black, Piece::Rook) => 'r',
        (Color::Black, Piece::Queen) => 'q',
        (Color::Black, Piece::King) => 'k',
    }
}

/// Whether the duck stands at file position `f` and rank position `r`.
pub open spec fn duck_at(p: Position, f: int, r: int) -> bool {
    p.duck is Some && p.duck->0.file.at() == f && p.duck->0.rank.at() == r
}

/// The character of a square: `*` for the duck, a letter for a man, `1` for an empty square.
pub open spec fn square_text(p: Position, f: int, r: int) -> char {
    if duck_at(p, f, r) {
        '*'
    } else {
        match p.squares[8 * r + f] {
            Some(m) => man_letter(m),
            None => '1',
        }
    }
}

/// A rank, from the a-file on.
pub open spec fn rank_text(p: Position, r: int) -> Seq<char> {
    Seq::new(8, |f: int| square_text(p, f, r))
}

/// The ranks from rank position `r` down, with slashes between them.
pub open spec fn ranks_text(p: Position, r: int) -> Seq<char>
    decreases r,
{
    if r <= 0 {
        rank_text(p, 0)
    } else {
        rank_text(p, r) + seq!['/'] + ranks_text(p, r - 1)
    }
}

/// The side to move.
pub open spec fn side_text(p: Position) -> Seq<char> {
    match p.stm {
        Color::White => seq!['w'],
        Color::Black => seq!['b'],
    }
}

/// A castling right, by the file of its rook: White's have capitals.
pub open spec fn right_text(file: Option<File>, color: Color) -> Seq<char> {
    match (file, color) {
        (None, _) => seq![],
        (Some(f), Color::White) => seq![(san::file_letter(f) as u32 - 32) as char],
        (Some(f), Color::Black) => seq![san::file_letter(f)],
    }
}

/// The castling rights of both sides.
pub open spec fn rights_text(p: Position) -> Seq<char> {
    let all = right_text(p.white_castling.short, Color::White) + right_text(
        p.white_castling.long,
        Color::White,
    ) + right_text(p.black_castling.short, Color::Black) + right_text(
        p.black_castling.long,
        Color::Black,
    );
    if all.len() == 0 {
        seq!['-']
    } else {
        all
    }
}

/// The square behind a pawn that may be taken in passing.
pub open spec fn passing_text(p: Position) -> Seq<char> {
    match p.en_passant {
        None => seq!['-'],
        Some(file) => san::name(
            Square {
                file,
                rank: match p.stm {
                    Color::White => Rank::Sixth,
                    Color::Black => Rank::Third,
                },
            },
        ),
    }
}

/// The position in six fields.
pub open spec fn fen_text(p: Position) -> Seq<char> {
    let sp = seq![' '];
    ranks_text(p, 7) + (sp + side_text(p) + (sp + rights_text(p) + (sp + passing_text(p) + (sp
        + text::decimal(p.hmc as nat) + (sp + text::decimal(p.fmc as nat))))))
}

proof fn lemma_man_letter(m: Man)
    ensures
        fen::man_of(man_letter(m)) == Some(m),
        man_letter(m) != '*',
        man_letter(m) != '/',
        !('1' <= man_letter(m) <= '8'),
        !text::is_space(man_letter(m)),
{
}

/// The cell of a square.
spec fn cell(p: Position, f: int, r: int) -> Cell {
    if duck_at(p, f, r) {
        Cell::Duck
    } else {
        match p.squares[8 * r + f] {
            Some(m) => Cell::Man(m),
            None => Cell::Empty,
        }
    }
}

proof fn lemma_square_text(p: Position, f: int, r: int)
    ensures
        fen::cells_of(square_text(p, f, r)) == Some(seq![cell(p, f, r)]),
        square_text(p, f, r) != '/',
        !text::is_space(square_text(p, f, r)),
{
    let c = square_text(p, f, r);
    if duck_at(p, f, r) {
        assert(c == '*');
    } else if p.squares[8 * r + f] is Some {
        lemma_man_letter(p.squares[8 * r + f]->0);
    } else {
        assert(c == '1');
        assert(Seq::new(1, |i: int| Cell::Empty) =~= seq![Cell::Empty]);
    }
}

proof fn lemma_cells(row: Seq<char>, i: int, done: Seq<Cell>, all: Seq<Cell>)
    requires
        0 <= i <= row.len(),
        all.len() == row.len(),
        done == all.take(i),
        forall|j: int| 0 <= j < row.len() ==> fen::cells_of(#[trigger] row[j]) == Some(seq![all[j]]),
    ensures
        fen::cells_from(row, i, done) == Some(all),
    decreases row.len() - i,
{
    if i < row.len() {
        assert(fen::cells_of(row[i]) == Some(seq![all[i]]));
        assert(done + seq![all[i]] =~= all.take(i + 1));
        lemma_cells(row, i + 1, done + seq![all[i]], all);
    } else {
        assert(all.take(i) =~= all);
    }
}

proof fn lemma_rank(p: Position, r: int)
    ensures
        fen::rank_cells(rank_text(p, r)) == Some(Seq::new(8, |f: int| cell(p, f, r))),
        forall|j: int| 0 <= j < 8 ==> #[trigger] rank_text(p, r)[j] != '/',
        spelling::solid(rank_text(p, r)),
        rank_text(p, r).len() == 8,
{
    let row = rank_text(p, r);
    let all = Seq::new(8, |f: int| cell(p, f, r));
    assert forall|j: int| 0 <= j < 8 implies fen::cells_of(#[trigger] row[j]) == Some(seq![all[j]])
        && row[j] != '/' && !text::is_space(row[j]) by {
        lemma_square_text(p, j, r);
    }
    assert(all.take(0) =~= seq![]);
    lemma_cells(row, 0, seq![], all);
}

/// The ranks from rank position `r` down.
spec fn rows_down(p: Position, r: int) -> Seq<Seq<char>> {
    Seq::new((r + 1) as nat, |k: int| rank_text(p, r - k))
}

proof fn lemma_ranks(p: Position, r: int)
    requires
        0 <= r < 8,
    ensures
        text::pieces(ranks_text(p, r), '/', 0) == rows_down(p, r),
        spelling::solid(ranks_text(p, r)),
        ranks_text(p, r).len() > 0,
    decreases r,
{
    lemma_rank(p, r);
    let row = rank_text(p, r);
    let none: Seq<char> = seq![];
    if r == 0 {
        spelling::law_splitting(row, '/', none);
        assert(rows_down(p, 0) =~= seq![row]);
    } else {
        lemma_ranks(p, r - 1);
        let rest = ranks_text(p, r - 1);
        spelling::law_splitting(row, '/', rest);
        assert(rows_down(p, r) =~= seq![row] + rows_down(p, r - 1));
        let s = ranks_text(p, r);
        assert forall|i: int| 0 <= i < s.len() implies !text::is_space(#[trigger] s[i]) by {
            if i < 8 {
                assert(s[i] == row[i]);
            } else if i > 8 {
                assert(s[i] == rest[i - 9]);
            } else {
                assert(s[i] == '/');
            }
        }
    }
}

/// Six words behind each other are read as six words.
proof fn lemma_six_words(
    a: Seq<char>,
    b: Seq<char>,
    c: Seq<char>,
    d: Seq<char>,
    e: Seq<char>,
    f: Seq<char>,
)
    requires
        a.len() > 0 && spelling::solid(a),
        b.len() > 0 && spelling::solid(b),
        c.len() > 0 && spelling::solid(c),
        d.len() > 0 && spelling::solid(d),
        e.len() > 0 && spelling::solid(e),
        f.len() > 0 && spelling::solid(f),
    ensures
        ({
            let sp = seq![' '];
            text::words(a + (sp + b + (sp + c + (sp + d + (sp + e + (sp + f))))), 0) == seq![
                a,
                b,
                c,
                d,
                e,
                f,
            ]
        }),
{
    let sp = seq![' '];
    let none: Seq<char> = seq![];
    let f1 = sp + f;
    let e1 = sp + e + f1;
    let d1 = sp + d + e1;
    let c1 = sp + c + d1;
    let b1 = sp + b + c1;
    assert(f1[0] == ' ' && e1[0] == ' ' && d1[0] == ' ' && c1[0] == ' ' && b1[0] == ' ');
    assert(spelling::spaces(sp));
    assert(spelling::spaces(none));
    spelling::law_words(sp, f, none);
    assert(sp + f + none =~= f1);
    spelling::law_words(none, f, none);
    assert(text::words(f1, 0) == seq![f] + text::words(none, 0));
    assert(text::words(f1, 0) =~= seq![f]);
    spelling::law_words(sp, e, f1);
    spelling::law_words(sp, d, e1);
    spelling::law_words(sp, c, d1);
    spelling::law_words(sp, b, c1);
    spelling::law_words(none, a, b1);
    assert(none + a + b1 =~= a + b1);
    assert(text::words(a + b1, 0) =~= seq![a, b, c, d, e, f]);
}

proof fn lemma_number_field(n: nat, limit: nat)
    requires
        n <= limit,
    ensures
        text::number(text::decimal(n), limit) == Some(n),
        spelling::solid(text::decimal(n)),
        text::decimal(n).len() > 0,
{
    spelling::law_decimals_are_read_back(n, limit);
    let s = text::decimal(n);
    assert forall|i: int| 0 <= i < s.len() implies !text::is_space(#[trigger] s[i]) by {
        assert(text::is_digit(s[i]));
    }
}

proof fn lemma_right_letter(f: File)
    ensures
        fen::right_of((san::file_letter(f) as u32 - 32) as char) == Some((Color::White, f)),
        fen::right_of(san::file_letter(f)) == Some((Color::Black, f)),
        !text::is_space((san::file_letter(f) as u32 - 32) as char),
        !text::is_space(san::file_letter(f)),
        (san::file_letter(f) as u32 - 32) as char != '-',
        san::file_letter(f) != '-',
{
    let c = (san::file_letter(f) as u32 - 32) as char;
    assert(c as u32 == san::file_letter(f) as u32 - 32);
}

/// A right behind others is added to them.
proof fn lemma_right_step(
    squares: Seq<Option<Man>>,
    field: Seq<char>,
    i: int,
    white: CastlingRights,
    black: CastlingRights,
    file: Option<File>,
    color: Color,
    short: bool,
)
    requires
        0 <= i,
        i + right_text(file, color).len() <= field.len(),
        file is Some ==> field[i] == right_text(file, color)[0],
        file is Some ==> {
            let king = board::king_from(squares, color, 0);
            &&& king is Some
            &&& king->0.rank.seen_by(color) == 0
            &&& short ==> file->0.at() > king->0.file.at()
            &&& !short ==> file->0.at() < king->0.file.at()
        },
        ({
            let rights = if color == Color::White {
                white
            } else {
                black
            };
            if short {
                rights.short is None
            } else {
                rights.long is None
            }
        }),
    ensures
        ({
            let rights = if color == Color::White {
                white
            } else {
                black
            };
            let more = if short {
                CastlingRights { short: file, ..rights }
            } else {
                CastlingRights { long: file, ..rights }
            };
            fen::rights_from(squares, field, i, white, black) == fen::rights_from(
                squares,
                field,
                i + right_text(file, color).len(),
                if color == Color::White {
                    more
                } else {
                    white
                },
                if color == Color::White {
                    black
                } else {
                    more
                },
            )
        }),
{
    if file is Some {
        lemma_right_letter(file->0);
        let king = board::king_from(squares, color, 0);
        match color {
            Color::White => {
                assert(fen::add_right(white, king, color, file->0) is Some);
            },
            Color::Black => {
                assert(fen::add_right(black, king, color, file->0) is Some);
            },
        }
    }
}

proof fn lemma_four_parts(a: Seq<char>, b: Seq<char>, c: Seq<char>, d: Seq<char>)
    requires
        a.len() <= 1,
        b.len() <= 1,
        c.len() <= 1,
        d.len() <= 1,
    ensures
        ({
            let s = a + b + c + d;
            &&& s.len() == a.len() + b.len() + c.len() + d.len()
            &&& a.len() > 0 ==> s[0] == a[0]
            &&& b.len() > 0 ==> s[a.len() as int] == b[0]
            &&& c.len() > 0 ==> s[(a.len() + b.len()) as int] == c[0]
            &&& d.len() > 0 ==> s[(a.len() + b.len() + c.len()) as int] == d[0]
            &&& forall|i: int|
                0 <= i < s.len() ==> {
                    ||| a.len() > 0 && #[trigger] s[i] == a[0]
                    ||| b.len() > 0 && s[i] == b[0]
                    ||| c.len() > 0 && s[i] == c[0]
                    ||| d.len() > 0 && s[i] == d[0]
                }
        }),
{
}

proof fn lemma_rights(p: Position)
    requires
        header::rights_fit(p, Color::White),
        header::rights_fit(p, Color::Black),
    ensures
        fen::castling_field(p.squares, rights_text(p)) == Some((p.white_castling, p.black_castling)),
        spelling::solid(rights_text(p)),
        rights_text(p).len() > 0,
{
    let (w, b) = (p.white_castling, p.black_castling);
    let a1 = right_text(w.short, Color::White);
    let a2 = right_text(w.long, Color::White);
    let a3 = right_text(b.short, Color::Black);
    let a4 = right_text(b.long, Color::Black);
    let all = a1 + a2 + a3 + a4;
    let field = rights_text(p);
    let none = fen::no_rights();
    reveal_strlit("-");
    assert("-"@ =~= seq!['-']);
    lemma_four_parts(a1, a2, a3, a4);
    if w.short is Some {
        lemma_right_letter(w.short->0);
    }
    if w.long is Some {
        lemma_right_letter(w.long->0);
    }
    if b.short is Some {
        lemma_right_letter(b.short->0);
    }
    if b.long is Some {
        lemma_right_letter(b.long->0);
    }
    if all.len() == 0 {
        assert(w == none && b == none);
        assert(field == seq!['-']);
    } else {
        assert(field == all);
        assert(field[0] != '-');
        assert(field != "-"@);
        let w1 = CastlingRights { short: w.short, long: None };
        let b1 = CastlingRights { short: b.short, long: None };
        let i1 = a1.len() as int;
        let i2 = i1 + a2.len();
        let i3 = i2 + a3.len();
        lemma_right_step(p.squares, field, 0, none, none, w.short, Color::White, true);
        lemma_right_step(p.squares, field, i1, w1, none, w.long, Color::White, false);
        lemma_right_step(p.squares, field, i2, w, none, b.short, Color::Black, true);
        lemma_right_step(p.squares, field, i3, w, b1, b.long, Color::Black, false);
    }
}

proof fn lemma_passing(p: Position)
    ensures
        fen::passing_field(passing_text(p), p.stm) == Some(p.en_passant),
        spelling::solid(passing_text(p)),
        passing_text(p).len() > 0,
{
    reveal_strlit("-");
    assert("-"@ =~= seq!['-']);
    match p.en_passant {
        None => {},
        Some(file) => {
            let s = Square {
                file,
                rank: match p.stm {
                    Color::White => Rank::Sixth,
                    Color::Black => Rank::Third,
                },
            };
            san::lemma_name(s);
            coordinates::lemma_square_name(s);
            assert(san::name(s).len() == 2);
        },
    }
}

proof fn lemma_side(p: Position)
    ensures
        fen::side_field(side_text(p)) == Some(p.stm),
        spelling::solid(side_text(p)),
        side_text(p).len() > 0,
{
    reveal_strlit("w");
    reveal_strlit("b");
    assert("w"@ =~= seq!['w']);
    assert("b"@ =~= seq!['b']);
    assert("w"@[0] == 'w' && "b"@[0] == 'b');
}

/// The cell of a square is read back.
proof fn lemma_cell_at(p: Position, i: int)
    requires
        0 <= i < 64,
    ensures
        fen::cell_at(rows_down(p, 7), i) == cell(p, i % 8, i / 8),
{
    let r = i / 8;
    assert(rows_down(p, 7)[7 - r] == rank_text(p, r));
    lemma_rank(p, r);
}

proof fn lemma_duck_in(p: Position, i: int)
    requires
        0 <= i <= 64,
        p.duck is Some ==> p.duck->0.at() >= i,
    ensures
        fen::duck_in(rows_down(p, 7), i) == p.duck,
    decreases 64 - i,
{
    if i < 64 {
        lemma_cell_at(p, i);
        assert(i == 8 * (i / 8) + i % 8);
        if p.duck is Some {
            let d = p.duck->0;
            assert(Square::of(d.at()) == d);
            assert(d.at() == 8 * d.rank.at() + d.file.at());
            assert(duck_at(p, i % 8, i / 8) <==> d.at() == i);
        }
        if !duck_at(p, i % 8, i / 8) {
            lemma_duck_in(p, i + 1);
        }
    }
}

/// A position that is written in Forsyth-Edwards notation is read back, if the duck stands on no man
/// and the castling rights fit the men.
pub proof fn law_positions_are_read_back(p: Position)
    requires
        p.squares.len() == 64,
        p.duck is Some ==> p.squares[p.duck->0.at()] is None,
        header::rights_fit(p, Color::White),
        header::rights_fit(p, Color::Black),
    ensures
        fen::position_of(fen_text(p)) == Some(p),
{
    let rows = rows_down(p, 7);
    lemma_ranks(p, 7);
    lemma_side(p);
    lemma_rights(p);
    lemma_passing(p);
    lemma_number_field(p.hmc as nat, 255);
    lemma_number_field(p.fmc as nat, 65535);
    lemma_six_words(
        ranks_text(p, 7),
        side_text(p),
        rights_text(p),
        passing_text(p),
        text::decimal(p.hmc as nat),
        text::decimal(p.fmc as nat),
    );
    assert(fen::full_rows(rows)) by {
        assert forall|k: int| 0 <= k < 8 implies fen::rank_cells(#[trigger] rows[k]) is Some by {
            lemma_rank(p, 7 - k);
        }
    }
    assert forall|i: int, j: int|
        0 <= i < 64 && 0 <= j < 64 && #[trigger] fen::cell_at(rows, i) == Cell::Duck
            && #[trigger] fen::cell_at(rows, j) == Cell::Duck implies i == j by {
        lemma_cell_at(p, i);
        lemma_cell_at(p, j);
        assert(i == 8 * (i / 8) + i % 8 && j == 8 * (j / 8) + j % 8);
    }
    assert(fen::placed(rows) =~= p.squares) by {
        assert forall|i: int| 0 <= i < 64 implies fen::placed(rows)[i] == p.squares[i] by {
            lemma_cell_at(p, i);
            assert(i == 8 * (i / 8) + i % 8);
            if duck_at(p, i % 8, i / 8) {
                assert(p.duck->0.at() == i);
            }
        }
    }
    lemma_duck_in(p, 0);
    let fields = text::words(fen_text(p), 0);
    assert(fields.len() == 6);
    assert(fields[0] == ranks_text(p, 7) && fields[1] == side_text(p) && fields[2] == rights_text(p)
        && fields[3] == passing_text(p) && fields[4] == text::decimal(p.hmc as nat) && fields[5]
        == text::decimal(p.fmc as nat));
    assert(fen::position_of(fen_text(p))->0 =~~= p);
}

/// So many empty squares as a digit says.
pub open spec fn ones(n: int) -> Seq<char> {
    Seq::new(n as nat, |i: int| '1')
}

/// A digit stands for as many empty squares, wherever it stands in a rank.
pub proof fn law_digits_are_empty_squares(a: Seq<char>, n: int, b: Seq<char>)
    requires
        1 <= n <= 8,
    ensures
        fen::rank_cells(a + seq![text::digit(n)] + b) == fen::rank_cells(a + ones(n) + b),
{
    let s = a + seq![text::digit(n)] + b;
    let t = a + ones(n) + b;
    let c = text::digit(n);
    let k = a.len() as int;
    assert(c as u32 == 48 + n);
    assert('1' <= c <= '8');
    lemma_same_start(a, seq![c] + b, ones(n) + b, 0, seq![]);
    assert(s =~= a + (seq![c] + b));
    assert(t =~= a + (ones(n) + b));
    if fen::cells_from(a, 0, seq![]) is Some {
        let done = fen::cells_from(a, 0, seq![])->0;
        assert(s[k] == c);
        let cells = Seq::new(n as nat, |i: int| Cell::Empty);
        assert(fen::cells_of(c) == Some(cells));
        lemma_ones(t, k, n, done);
        assert(s.skip(k + 1) =~= b);
        assert(t.skip(k + n) =~= b);
        lemma_same_end(s, t, k + 1, k + n, done + cells);
    }
}

/// What a rank begins with is read first.
proof fn lemma_same_start(a: Seq<char>, x: Seq<char>, y: Seq<char>, i: int, done: Seq<Cell>)
    requires
        0 <= i <= a.len(),
    ensures
        fen::cells_from(a, i, done) is None ==> fen::cells_from(a + x, i, done) is None
            && fen::cells_from(a + y, i, done) is None,
        fen::cells_from(a, i, done) is Some ==> fen::cells_from(a + x, i, done) == fen::cells_from(
            a + x,
            a.len() as int,
            fen::cells_from(a, i, done)->0,
        ) && fen::cells_from(a + y, i, done) == fen::cells_from(
            a + y,
            a.len() as int,
            fen::cells_from(a, i, done)->0,
        ),
    decreases a.len() - i,
{
    if i < a.len() {
        assert((a + x)[i] == a[i] && (a + y)[i] == a[i]);
        match fen::cells_of(a[i]) {
            Some(cells) => {
                lemma_same_start(a, x, y, i + 1, done + cells);
            },
            None => {},
        }
    }
}

proof fn lemma_ones(t: Seq<char>, k: int, n: int, done: Seq<Cell>)
    requires
        0 <= k,
        0 <= n,
        k + n <= t.len(),
        forall|j: int| k <= j < k + n ==> #[trigger] t[j] == '1',
    ensures
        fen::cells_from(t, k, done) == fen::cells_from(
            t,
            k + n,
            done + Seq::new(n as nat, |i: int| Cell::Empty),
        ),
    decreases n,
{
    let all = Seq::new(n as nat, |i: int| Cell::Empty);
    if n > 0 {
        assert(t[k] == '1');
        let one = Seq::new(1, |i: int| Cell::Empty);
        assert(fen::cells_of('1') == Some(one));
        lemma_ones(t, k + 1, n - 1, done + one);
        assert(done + one + Seq::new((n - 1) as nat, |i: int| Cell::Empty) =~= done + all);
    } else {
        assert(done + all =~= done);
    }
}

/// What two ranks end with is read alike.
proof fn lemma_same_end(s: Seq<char>, t: Seq<char>, i: int, j: int, done: Seq<Cell>)
    requires
        0 <= i <= s.len(),
        0 <= j <= t.len(),
        s.skip(i) == t.skip(j),
    ensures
        fen::cells_from(s, i, done) == fen::cells_from(t, j, done),
    decreases s.len() - i,
{
    assert(s.skip(i).len() == s.len() - i && t.skip(j).len() == t.len() - j);
    if i < s.len() {
        assert(s.skip(i)[0] == s[i]);
        assert(t.skip(j)[0] == t[j]);
        assert(s.skip(i + 1) =~= s.skip(i).skip(1));
        assert(t.skip(j + 1) =~= t.skip(j).skip(1));
        match fen::cells_of(s[i]) {
            Some(cells) => {
                lemma_same_end(s, t, i + 1, j + 1, done + cells);
            },
            None => {},
        }
    }
}

proof fn lemma_times(a: Seq<char>, b: Seq<char>, c: char)
    ensures
        initial::times(a + b, c) == initial::times(a, c) + initial::times(b, c),
    decreases b.len(),
{
    if b.len() > 0 {
        assert((a + b).drop_last() =~= a + b.drop_last());
        assert((a + b).last() == b.last());
        lemma_times(a, b.drop_last(), c);
    } else {
        assert(a + b =~= a);
    }
}

/// The letter of the king of a color.
spec fn king_letter(color: Color) -> char {
    match color {
        Color::White => 'K',
        Color::Black => 'k',
    }
}

/// The kings on the first `f` squares of a rank are counted in its text.
proof fn lemma_kings_in_rank(p: Position, r: int, f: int, color: Color)
    requires
        p.squares.len() == 64,
        p.duck is Some ==> p.squares[p.duck->0.at()] is None,
        0 <= r < 8,
        0 <= f <= 8,
    ensures
        initial::times(rank_text(p, r).take(f), king_letter(color)) == board::tally(
            p.squares,
            Some(color),
            Some(Piece::King),
            8 * r + f,
        ) - board::tally(p.squares, Some(color), Some(Piece::King), 8 * r),
    decreases f,
{
    let row = rank_text(p, r);
    if f > 0 {
        lemma_kings_in_rank(p, r, f - 1, color);
        assert(row.take(f).drop_last() =~= row.take(f - 1));
        assert(row.take(f).last() == square_text(p, f - 1, r));
        if duck_at(p, f - 1, r) {
            assert(p.duck->0.at() == 8 * r + f - 1);
        }
        match p.squares[8 * r + f - 1] {
            Some(m) => {
                match m.color {
                    Color::White => {},
                    Color::Black => {},
                }
            },
            None => {},
        }
    }
}

proof fn lemma_kings_in_ranks(p: Position, r: int, color: Color)
    requires
        p.squares.len() == 64,
        p.duck is Some ==> p.squares[p.duck->0.at()] is None,
        0 <= r < 8,
    ensures
        initial::times(ranks_text(p, r), king_letter(color)) == board::tally(
            p.squares,
            Some(color),
            Some(Piece::King),
            8 * r + 8,
        ),
    decreases r,
{
    let c = king_letter(color);
    let row = rank_text(p, r);
    lemma_kings_in_rank(p, r, 8, color);
    assert(row.take(8) =~= row);
    if r > 0 {
        lemma_kings_in_ranks(p, r - 1, color);
        let slash = seq!['/'];
        let rest = ranks_text(p, r - 1);
        lemma_times(row + slash, rest, c);
        lemma_times(row, slash, c);
        assert(slash.drop_last().len() == 0);
        assert(initial::times(slash.drop_last(), c) == 0);
        assert(slash.last() == '/');
        assert(initial::times(slash, c) == 0);
    } else {
        assert(board::tally(p.squares, Some(color), Some(Piece::King), 0) == 0);
    }
}

/// A rank is written without fault.
proof fn lemma_row_without_fault(p: Position, r: int, i: int)
    requires
        p.squares.len() == 64,
        0 <= r < 8,
        0 <= i <= 8,
        r == 0 || r == 7 ==> forall|f: int|
            0 <= f < 8 && p.squares[8 * r + f] is Some ==> (
            #[trigger] p.squares[8 * r + f])->0.piece != Piece::Pawn,
    ensures
        initial::row_fault(rank_text(p, r), r == 0 || r == 7, i, i) is None,
    decreases 8 - i,
{
    if i < 8 {
        lemma_row_without_fault(p, r, i + 1);
        let c = rank_text(p, r)[i];
        assert(c == square_text(p, i, r));
        if duck_at(p, i, r) {
            assert(c == '*');
        } else if p.squares[8 * r + i] is Some {
            let m = p.squares[8 * r + i]->0;
            lemma_man_letter(m);
            assert(m.piece == Piece::Pawn <==> c == 'p' || c == 'P') by {
                match m.color {
                    Color::White => {},
                    Color::Black => {},
                }
            }
        } else {
            assert(c == '1');
            assert(c as u32 == 49);
        }
    }
}

proof fn lemma_rows_without_fault(p: Position, k: int)
    requires
        header::fitting(p),
        0 <= k <= 8,
    ensures
        initial::rows_fault(rows_down(p, 7), k) is None,
    decreases 8 - k,
{
    if k < 8 {
        let r = 7 - k;
        assert(rows_down(p, 7)[k] == rank_text(p, r));
        lemma_row_without_fault(p, r, 0);
        lemma_rows_without_fault(p, k + 1);
    }
}

/// Every position that a header can hold, with one king on each side and the duck on no man, can be
/// the first of a game: written in Forsyth-Edwards notation it is accepted as it is.
pub proof fn law_first_positions_are_accepted(p: Position)
    requires
        header::fitting(p),
        p.duck is Some ==> p.squares[p.duck->0.at()] is None,
        p.number(Some(Color::White), Some(Piece::King)) == 1,
        p.number(Some(Color::Black), Some(Piece::King)) == 1,
    ensures
        initial::first_position(Some(fen_text(p))) == Ok::<Position, (ErrorKind, Seq<char>)>(p),
{
    law_positions_are_read_back(p);
    lemma_ranks(p, 7);
    lemma_side(p);
    lemma_rights(p);
    lemma_passing(p);
    lemma_number_field(p.hmc as nat, 255);
    lemma_number_field(p.fmc as nat, 65535);
    lemma_six_words(
        ranks_text(p, 7),
        side_text(p),
        rights_text(p),
        passing_text(p),
        text::decimal(p.hmc as nat),
        text::decimal(p.fmc as nat),
    );
    lemma_kings_in_ranks(p, 7, Color::White);
    lemma_kings_in_ranks(p, 7, Color::Black);
    lemma_rows_without_fault(p, 0);
    let fields = text::words(fen_text(p), 0);
    assert(fields[0] == ranks_text(p, 7) && fields[3] == passing_text(p));
    assert(fields[3] == "-"@ || fen::square_of(fields[3]) is Some);
    assert(initial::plausible(fields));
    assert(initial::rooks_there(p, Color::White));
    assert(initial::rooks_there(p, Color::Black));
}

/// The file of a rook, in place of the letter of the side on which the king castles.
pub open spec fn rook_file(c: char) -> char {
    match c {
        'K' => 'H',
        'Q' => 'A',
        'k' => 'h',
        'q' => 'a',
        _ => c,
    }
}

/// In the castling rights `K` and `Q` stand for the rooks on the outermost files, `k` and `q` for
/// those of Black.
pub proof fn law_castling_letters(squares: Seq<Option<Man>>, field: Seq<char>)
    ensures
        fen::castling_field(squares, field) == fen::castling_field(
            squares,
            field.map_values(|c: char| rook_file(c)),
        ),
{
    let other = field.map_values(|c: char| rook_file(c));
    reveal_strlit("-");
    if field == "-"@ {
        assert(other =~= "-"@);
    } else if other == "-"@ {
        assert(other.len() == 1 && other[0] == '-');
        assert(field[0] == '-');
        assert(field =~= "-"@);
    }
    lemma_castling_letters(squares, field, other, 0, fen::no_rights(), fen::no_rights());
}

proof fn lemma_castling_letters(
    squares: Seq<Option<Man>>,
    field: Seq<char>,
    other: Seq<char>,
    i: int,
    white: CastlingRights,
    black: CastlingRights,
)
    requires
        0 <= i,
        field.len() == other.len(),
        forall|j: int| 0 <= j < field.len() ==> #[trigger] other[j] == rook_file(field[j]),
    ensures
        fen::rights_from(squares, field, i, white, black) == fen::rights_from(
            squares,
            other,
            i,
            white,
            black,
        ),
    decreases field.len() - i,
{
    if i < field.len() {
        let c = field[i];
        assert(other[i] == rook_file(c));
        assert(fen::right_of(c) == fen::right_of(rook_file(c)));
        match fen::right_of(c) {
            Some((Color::White, file)) => {
                let king = board::king_from(squares, Color::White, 0);
                match fen::add_right(white, king, Color::White, file) {
                    Some(more) => {
                        lemma_castling_letters(squares, field, other, i + 1, more, black);
                    },
                    None => {},
                }
            },
            Some((Color::Black, file)) => {
                let king = board::king_from(squares, Color::Black, 0);
                match fen::add_right(black, king, Color::Black, file) {
                    Some(more) => {
                        lemma_castling_letters(squares, field, other, i + 1, white, more);
                    },
                    None => {},
                }
            },
            None => {},
        }
    }
}

/// How many of the first `n` cells are `x`.
spec fn cells_like(cells: Seq<Cell>, x: Cell, n: int) -> int
    decreases n,
{
    if n <= 0 {
        0
    } else {
        cells_like(cells, x, n - 1) + if cells[n - 1] == x {
            1int
        } else {
            0
        }
    }
}

/// The character of a cell that is not empty.
spec fn sign(x: Cell) -> char {
    match x {
        Cell::Man(m) => man_letter(m),
        _ => '*',
    }
}

/// Some cells and some more, of which the first `k` count.
proof fn lemma_more_cells(a: Seq<Cell>, b: Seq<Cell>, x: Cell, k: int)
    requires
        0 <= k <= b.len(),
    ensures
        cells_like(a + b, x, a.len() + k) == cells_like(a, x, a.len() as int) + cells_like(b, x, k),
    decreases k,
{
    if k > 0 {
        lemma_more_cells(a, b, x, k - 1);
        assert((a + b)[a.len() + k - 1] == b[k - 1]);
    } else {
        lemma_same_cells(a, a + b, x, a.len() as int);
    }
}

proof fn lemma_same_cells(a: Seq<Cell>, b: Seq<Cell>, x: Cell, n: int)
    requires
        n <= a.len(),
        forall|j: int| 0 <= j < n ==> #[trigger] a[j] == b[j],
    ensures
        cells_like(a, x, n) == cells_like(b, x, n),
    decreases n,
{
    if n > 0 {
        lemma_same_cells(a, b, x, n - 1);
        assert(a[n - 1] == b[n - 1]);
    }
}

/// The cells of one character are `x` if it is the sign of `x`.
proof fn lemma_letter_cells(c: char, x: Cell, n: int)
    requires
        x != Cell::Empty,
        fen::cells_of(c) is Some,
        0 <= n <= fen::cells_of(c)->0.len(),
    ensures
        cells_like(fen::cells_of(c)->0, x, n) == if n > 0 && c == sign(x) {
            1int
        } else {
            0
        },
    decreases n,
{
    if n > 0 {
        lemma_letter_cells(c, x, n - 1);
        match x {
            Cell::Man(m) => {
                lemma_man_letter(m);
            },
            _ => {},
        }
    }
}

proof fn lemma_row_cells(row: Seq<char>, x: Cell, i: int, done: Seq<Cell>)
    requires
        x != Cell::Empty,
        0 <= i <= row.len(),
        fen::cells_from(row, i, done) is Some,
    ensures
        ({
            let all = fen::cells_from(row, i, done)->0;
            cells_like(all, x, all.len() as int) == cells_like(done, x, done.len() as int)
                + initial::times(row.skip(i), sign(x))
        }),
    decreases row.len() - i,
{
    if i < row.len() {
        let c = row[i];
        let cells = fen::cells_of(c)->0;
        lemma_row_cells(row, x, i + 1, done + cells);
        lemma_more_cells(done, cells, x, cells.len() as int);
        lemma_letter_cells(c, x, cells.len() as int);
        let one = seq![c];
        assert(row.skip(i) =~= one + row.skip(i + 1));
        lemma_times(one, row.skip(i + 1), sign(x));
        assert(one.drop_last().len() == 0);
        assert(initial::times(one.drop_last(), sign(x)) == 0);
        assert(one.last() == c);
        assert(cells.len() > 0);
    } else {
        assert(row.skip(i).len() == 0);
    }
}

/// How often a letter occurs in some rows.
spec fn in_rows(rows: Seq<Seq<char>>, c: char) -> int
    decreases rows.len(),
{
    if rows.len() == 0 {
        0
    } else {
        initial::times(rows[0], c) + in_rows(rows.skip(1), c)
    }
}

proof fn lemma_in_pieces(s: Seq<char>, c: char, i: int)
    requires
        0 <= i <= s.len(),
        c != '/',
    ensures
        in_rows(text::pieces(s, '/', i), c) == initial::times(s.skip(i), c),
    decreases s.len() - i,
{
    let p = text::only('/');
    let b = text::find(s, p, i);
    let all = text::pieces(s, '/', i);
    text::lemma_find(s, p, i);
    if b >= s.len() {
        assert(all =~= seq![s.skip(i)]);
        assert(all.skip(1).len() == 0);
        assert(in_rows(all.skip(1), c) == 0);
    } else {
        let head = s.subrange(i, b);
        let slash = seq!['/'];
        let rest = s.skip(b + 1);
        lemma_in_pieces(s, c, b + 1);
        assert(all.skip(1) =~= text::pieces(s, '/', b + 1));
        assert(all[0] == head);
        assert(s[b] == '/');
        assert(s.skip(i) =~= head + slash + rest);
        lemma_times(head + slash, rest, c);
        lemma_times(head, slash, c);
        assert(slash.drop_last().len() == 0);
        assert(initial::times(slash.drop_last(), c) == 0);
        assert(slash.last() == '/');
    }
}

/// On how many of the first `n` squares the cell is `x`.
spec fn squares_like(rows: Seq<Seq<char>>, x: Cell, n: int) -> int
    decreases n,
{
    if n <= 0 {
        0
    } else {
        squares_like(rows, x, n - 1) + if fen::cell_at(rows, n - 1) == x {
            1int
        } else {
            0
        }
    }
}

proof fn lemma_rank_squares(rows: Seq<Seq<char>>, x: Cell, r: int, f: int)
    requires
        fen::full_rows(rows),
        0 <= r < 8,
        0 <= f <= 8,
    ensures
        squares_like(rows, x, 8 * r + f) == squares_like(rows, x, 8 * r) + cells_like(
            fen::rank_cells(rows[7 - r])->0,
            x,
            f,
        ),
    decreases f,
{
    if f > 0 {
        lemma_rank_squares(rows, x, r, f - 1);
        let i = 8 * r + f - 1;
        assert(i / 8 == r && i % 8 == f - 1);
        assert(fen::cell_at(rows, i) == fen::rank_cells(rows[7 - r])->0[f - 1]);
    }
}

/// A sign is as often in the text of the board as its cell on the board.
proof fn lemma_squares(rows: Seq<Seq<char>>, x: Cell, r: int)
    requires
        x != Cell::Empty,
        fen::full_rows(rows),
        0 <= r <= 8,
    ensures
        squares_like(rows, x, 8 * r) == in_rows(rows.skip(8 - r), sign(x)),
    decreases r,
{
    if r > 0 {
        lemma_squares(rows, x, r - 1);
        lemma_rank_squares(rows, x, r - 1, 8);
        let row = rows[8 - r];
        assert(fen::rank_cells(row) is Some);
        lemma_row_cells(row, x, 0, seq![]);
        assert(row.skip(0) =~= row);
        assert(rows.skip(8 - r)[0] == row);
        assert(rows.skip(8 - r).skip(1) =~= rows.skip(9 - r));
    } else {
        assert(rows.skip(8).len() == 0);
    }
}

/// The men on the first `n` squares are those of the cells.
proof fn lemma_placed(rows: Seq<Seq<char>>, m: Man, n: int)
    requires
        n <= 64,
    ensures
        board::tally(fen::placed(rows), Some(m.color), Some(m.piece), n) == squares_like(
            rows,
            Cell::Man(m),
            n,
        ),
    decreases n,
{
    if n > 0 {
        lemma_placed(rows, m, n - 1);
    }
}

/// Every man is as often on the board as its letter is in the first field.
pub proof fn law_letters_are_men(s: Seq<char>, m: Man)
    requires
        fen::position_of(s) is Some,
    ensures
        fen::position_of(s)->0.number(Some(m.color), Some(m.piece)) == initial::times(
            text::words(s, 0)[0],
            man_letter(m),
        ),
{
    let board = text::words(s, 0)[0];
    let rows = text::pieces(board, '/', 0);
    assert(man_letter(m) != '/') by {
        lemma_man_letter(m);
    }
    lemma_in_pieces(board, man_letter(m), 0);
    assert(board.skip(0) =~= board);
    assert(rows.skip(0) =~= rows);
    lemma_squares(rows, Cell::Man(m), 8);
    lemma_placed(rows, m, 64);
}

/// A position that can be the first of a game has one king of each color.
pub proof fn law_first_positions_have_kings(s: Seq<char>)
    requires
        initial::first_position(Some(s)) is Ok,
    ensures
        initial::first_position(Some(s))->Ok_0.number(Some(Color::White), Some(Piece::King)) == 1,
        initial::first_position(Some(s))->Ok_0.number(Some(Color::Black), Some(Piece::King)) == 1,
{
    law_letters_are_men(s, Man { color: Color::White, piece: Piece::King });
    law_letters_are_men(s, Man { color: Color::Black, piece: Piece::King });
}

proof fn lemma_ducks(rows: Seq<Seq<char>>, n: int)
    requires
        fen::one_duck(rows),
        0 <= n <= 64,
    ensures
        squares_like(rows, Cell::Duck, n) == if exists|i: int|
            0 <= i < n && #[trigger] fen::cell_at(rows, i) == Cell::Duck {
            1int
        } else {
            0
        },
    decreases n,
{
    if n > 0 {
        lemma_ducks(rows, n - 1);
        if exists|i: int| 0 <= i < n - 1 && #[trigger] fen::cell_at(rows, i) == Cell::Duck {
            let i = choose|i: int| 0 <= i < n - 1 && #[trigger] fen::cell_at(rows, i) == Cell::Duck;
            assert(0 <= i < n && fen::cell_at(rows, i) == Cell::Duck);
            assert(fen::cell_at(rows, n - 1) != Cell::Duck);
        } else if fen::cell_at(rows, n - 1) == Cell::Duck {
            assert(0 <= n - 1 < n);
        }
    }
}

proof fn lemma_duck_found(rows: Seq<Seq<char>>, i: int)
    requires
        0 <= i <= 64,
    ensures
        fen::duck_in(rows, i) is Some <==> exists|j: int|
            i <= j < 64 && #[trigger] fen::cell_at(rows, j) == Cell::Duck,
    decreases 64 - i,
{
    if i < 64 {
        lemma_duck_found(rows, i + 1);
        if fen::cell_at(rows, i) != Cell::Duck {
            if exists|j: int| i <= j < 64 && #[trigger] fen::cell_at(rows, j) == Cell::Duck {
                let j = choose|j: int|
                    i <= j < 64 && #[trigger] fen::cell_at(rows, j) == Cell::Duck;
                assert(i + 1 <= j < 64 && fen::cell_at(rows, j) == Cell::Duck);
            }
        }
    }
}

/// There is one duck or none, as it is written.
pub proof fn law_there_is_one_duck(s: Seq<char>)
    requires
        fen::position_of(s) is Some,
    ensures
        initial::times(text::words(s, 0)[0], '*') == if fen::position_of(s)->0.duck is Some {
            1int
        } else {
            0
        },
{
    let board = text::words(s, 0)[0];
    let rows = text::pieces(board, '/', 0);
    lemma_in_pieces(board, '*', 0);
    assert(board.skip(0) =~= board);
    assert(rows.skip(0) =~= rows);
    lemma_squares(rows, Cell::Duck, 8);
    lemma_ducks(rows, 64);
    lemma_duck_found(rows, 0);
}

/// The fields behind the board say which side is to move, which pawn may be taken in passing and
/// what the clocks are: `w` or `b`, a square behind a pawn of the other side or `-`, and two numbers.
pub proof fn law_fields_say_what_is_read(s: Seq<char>)
    requires
        fen::position_of(s) is Some,
    ensures
        ({
            let p = fen::position_of(s)->0;
            let fields = text::words(s, 0);
            &&& fields.len() == 6
            &&& fields[1] == side_text(p)
            &&& fields[3] == passing_text(p)
            &&& text::number(fields[4], 255) == Some(p.hmc as nat)
            &&& text::number(fields[5], 65535) == Some(p.fmc as nat)
        }),
{
    let p = fen::position_of(s)->0;
    let fields = text::words(s, 0);
    reveal_strlit("w");
    reveal_strlit("b");
    reveal_strlit("-");
    assert("w"@ =~= seq!['w']);
    assert("b"@ =~= seq!['b']);
    assert("-"@ =~= seq!['-']);
    if fields[3] != "-"@ {
        san::lemma_square_read(fields[3]);
        let q = fen::square_of(fields[3])->0;
        match p.stm {
            Color::White => {
                assert(q.rank == Rank::Sixth);
            },
            Color::Black => {
                assert(q.rank == Rank::Third);
            },
        }
    }
}

} // verus!
