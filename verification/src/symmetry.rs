//! The rules are the same for both sides.
use crate::board::Position;
use crate::common::{CastlingDirection, Color, Man, Move, MoveFlag, Piece, Rank, Square};
use crate::{board, common};
use vstd::prelude::*;

verus! {

broadcast use crate::common::group_squares;

/// The square on the other side of the board.
pub open spec fn across(s: Square) -> Square {
    Square { file: s.file, rank: Rank::of(7 - s.rank.at()) }
}

/// A man of the other color.
pub open spec fn recolored(man: Option<Man>) -> Option<Man> {
    match man {
        Some(Man { color: Color::White, piece }) => Some(Man { color: Color::Black, piece }),
        Some(Man { color: Color::Black, piece }) => Some(Man { color: Color::White, piece }),
        None => None,
    }
}

/// What stands on the squares, in the other color and on the squares across.
pub open spec fn men_across(squares: Seq<Option<Man>>) -> Seq<Option<Man>> {
    Seq::new(64, |i: int| recolored(squares[8 * (7 - i / 8) + i % 8]))
}

/// The position with the sides exchanged: what stands on a square stands, in the other color, on the
/// square across, and the other side is to move.
pub open spec fn exchanged(p: Position) -> Position {
    Position {
        squares: men_across(p.squares),
        stm: match p.stm {
            Color::White => Color::Black,
            Color::Black => Color::White,
        },
        white_castling: p.black_castling,
        black_castling: p.white_castling,
        duck: match p.duck {
            Some(s) => Some(across(s)),
            None => None,
        },
        ..p
    }
}

/// The move on the other side of the board.
pub open spec fn move_across(mv: Move) -> Move {
    Move { src: across(mv.src), dest: across(mv.dest), duck: across(mv.duck), flag: mv.flag }
}

proof fn lemma_across(s: Square)
    ensures
        across(s).rank.at() == 7 - s.rank.at(),
        across(s).file == s.file,
        across(s).at() == 8 * (7 - s.rank.at()) + s.file.at(),
        across(across(s)) == s,
        0 <= s.file.at() < 8,
        0 <= s.rank.at() < 8,
{
    assert(Rank::of(s.rank.at()) == s.rank);
}

proof fn lemma_across_unique(a: Square, b: Square)
    ensures
        across(a) == across(b) <==> a == b,
{
    lemma_across(a);
    lemma_across(b);
}

/// What stands on a square stands recolored on the square across.
proof fn lemma_on(p: Position, f: int, r: int)
    requires
        board::on_board(f, r),
    ensures
        exchanged(p).man(f, 7 - r) == recolored(p.man(f, r)),
{
    let i = 8 * (7 - r) + f;
    assert(i / 8 == 7 - r && i % 8 == f);
}

proof fn lemma_on_square(p: Position, s: Square)
    ensures
        exchanged(p).on(across(s)) == recolored(p.on(s)),
        exchanged(p).duck == Some(across(s)) <==> p.duck == Some(s),
{
    lemma_across(s);
    lemma_on(p, s.file.at(), s.rank.at());
    if let Some(d) = p.duck {
        lemma_across_unique(d, s);
    }
}

proof fn lemma_free(p: Position, f: int, r: int)
    ensures
        exchanged(p).free(f, 7 - r) == p.free(f, r),
{
    if board::on_board(f, r) {
        lemma_on(p, f, r);
        if let Some(d) = p.duck {
            lemma_across(d);
        }
    }
}

proof fn lemma_clear(p: Position, s: Square, t: Square)
    ensures
        exchanged(p).clear(across(s), across(t)) == p.clear(s, t),
{
    lemma_across(s);
    lemma_across(t);
    let q = exchanged(p);
    let (a, b) = (across(s), across(t));
    assert forall|k: int| #[trigger] q.free_on_way(a, b, k) == p.free_on_way(s, t, k) by {
        lemma_free(
            p,
            s.file.at() + board::along(k, t.file.at() - s.file.at()),
            s.rank.at() + board::along(k, t.rank.at() - s.rank.at()),
        );
    }
    assert(board::span(b.file.at() - a.file.at(), b.rank.at() - a.rank.at()) == board::span(
        t.file.at() - s.file.at(),
        t.rank.at() - s.rank.at(),
    ));
    if q.clear(a, b) {
        assert forall|k: int|
            0 < k < board::span(
                t.file.at() - s.file.at(),
                t.rank.at() - s.rank.at(),
            ) implies #[trigger] p.free_on_way(s, t, k) by {
            assert(q.free_on_way(a, b, k));
        }
    }
}

proof fn lemma_pawn(p: Position, s: Square, t: Square, flag: MoveFlag)
    ensures
        exchanged(p).pawn_step(across(s), across(t), flag) == p.pawn_step(s, t, flag),
{
    lemma_across(s);
    lemma_across(t);
    lemma_on_square(p, t);
    lemma_free(p, t.file.at(), t.rank.at());
    lemma_free(p, t.file.at(), t.rank.at() - p.stm.forward());
    lemma_on(p, t.file.at(), s.rank.at());
    match p.stm {
        Color::White => {},
        Color::Black => {},
    }
}

proof fn lemma_castle(p: Position, s: Square, t: Square, dir: CastlingDirection)
    ensures
        exchanged(p).castle_step(across(s), across(t), dir) == p.castle_step(s, t, dir),
{
    lemma_across(s);
    lemma_across(t);
    lemma_on_square(p, t);
    let q = exchanged(p);
    let r = s.rank.at();
    assert forall|f: int| #[trigger] q.free(f, 7 - r) == p.free(f, r) by {
        lemma_free(p, f, r);
    }
    let low = board::castle_low(s, t, dir);
    let high = board::castle_high(s, t, dir);
    if q.castle_step(across(s), across(t), dir) {
        assert forall|f: int|
            low <= f <= high && f != s.file.at() && f != t.file.at() implies #[trigger] p.free(f, r) by {
            assert(q.free(f, 7 - r));
        }
    }
    assert(t.rank == s.rank <==> across(t).rank == across(s).rank) by {
        assert(Rank::of(t.rank.at()) == t.rank);
        assert(Rank::of(s.rank.at()) == s.rank);
        assert(Rank::of(7 - t.rank.at()).at() == 7 - t.rank.at());
        assert(Rank::of(7 - s.rank.at()).at() == 7 - s.rank.at());
    }
    match p.stm {
        Color::White => {},
        Color::Black => {},
    }
}

proof fn lemma_step(p: Position, s: Square, t: Square, flag: MoveFlag)
    ensures
        exchanged(p).step(across(s), across(t), flag) == p.step(s, t, flag),
{
    lemma_across(s);
    lemma_across(t);
    lemma_on_square(p, s);
    lemma_on_square(p, t);
    lemma_pawn(p, s, t, flag);
    lemma_clear(p, s, t);
    lemma_castle(p, s, t, CastlingDirection::Short);
    lemma_castle(p, s, t, CastlingDirection::Long);
    match p.stm {
        Color::White => {},
        Color::Black => {},
    }
}

proof fn lemma_update(squares: Seq<Option<Man>>, f: int, r: int, man: Option<Man>)
    requires
        squares.len() == 64,
        board::on_board(f, r),
    ensures
        men_across(squares.update(8 * r + f, man)) == men_across(squares).update(
            8 * (7 - r) + f,
            recolored(man),
        ),
{
    let a = men_across(squares.update(8 * r + f, man));
    let b = men_across(squares).update(8 * (7 - r) + f, recolored(man));
    assert forall|i: int| 0 <= i < 64 implies a[i] == b[i] by {
        let j = 8 * (7 - i / 8) + i % 8;
        assert(0 <= j < 64);
        assert(j == 8 * r + f <==> i == 8 * (7 - r) + f) by {
            assert(i == 8 * (i / 8) + i % 8);
        }
    }
    assert(a =~= b);
}

/// The men after a move across are the men after the move, across.
proof fn lemma_squares_after(p: Position, s: Square, t: Square, flag: MoveFlag)
    requires
        p.squares.len() == 64,
    ensures
        exchanged(p).squares_after(across(s), across(t), flag) == men_across(
            p.squares_after(s, t, flag),
        ),
{
    lemma_across(s);
    lemma_across(t);
    lemma_on_square(p, s);
    let q = exchanged(p);
    let (a, b, c, d) = (s.file.at(), s.rank.at(), t.file.at(), t.rank.at());
    let one = p.squares.update(s.at(), None);
    lemma_update(p.squares, a, b, None);
    match flag.castles() {
        Some(dir) => {
            let king = Some(Man { color: p.stm, piece: Piece::King });
            let rook = Some(Man { color: p.stm, piece: Piece::Rook });
            let two = one.update(t.at(), None);
            let three = two.update(8 * b + board::king_goal(dir), king);
            lemma_update(one, c, d, None);
            lemma_update(two, board::king_goal(dir), b, king);
            lemma_update(three, board::rook_goal(dir), b, rook);
        },
        None => {
            let moved = match flag.becomes() {
                Some(piece) => Some(Man { color: p.stm, piece }),
                None => p.on(s),
            };
            let two = one.update(t.at(), moved);
            lemma_update(one, c, d, moved);
            lemma_update(two, c, b, None);
        },
    }
}

/// The rules are the same for both sides: a move is legal just if the move across is legal with the
/// sides exchanged.
pub proof fn law_rules_are_the_same(p: Position, mv: Move)
    requires
        p.squares.len() == 64,
    ensures
        exchanged(p).legal(move_across(mv)) == p.legal(mv),
{
    let (s, t, d) = (mv.src, mv.dest, mv.duck);
    lemma_step(p, s, t, mv.flag);
    lemma_squares_after(p, s, t, mv.flag);
    lemma_on_square(p, d);
    lemma_across(d);
    let b = p.squares_after(s, t, mv.flag);
    let i = across(d).at();
    assert(i / 8 == 7 - d.rank.at() && i % 8 == d.file.at());
    assert(men_across(b)[i] == recolored(b[d.at()]));
}

/// A legal move does the same for both sides: what it leads to with the sides exchanged is what it
/// leads to, with the sides exchanged. Only the number of the turn grows with Black's moves alone.
pub proof fn law_moves_do_the_same(p: Position, mv: Move)
    requires
        p.squares.len() == 64,
        p.legal(mv),
    ensures
        exchanged(p).after(move_across(mv)) == (Position {
            fmc: exchanged(p).after(move_across(mv)).fmc,
            ..exchanged(p.after(mv))
        }),
        p.stm == Color::White ==> p.after(mv).fmc == p.fmc,
        p.stm == Color::Black && p.fmc < u16::MAX ==> p.after(mv).fmc == p.fmc + 1,
{
    let (s, t) = (mv.src, mv.dest);
    lemma_squares_after(p, s, t, mv.flag);
    lemma_across(s);
    lemma_across(t);
    lemma_on_square(p, s);
    lemma_on_square(p, t);
    let a = exchanged(p).after(move_across(mv));
    let b = exchanged(p.after(mv));
    assert(a.squares =~= b.squares);
    match p.stm {
        Color::White => {},
        Color::Black => {},
    }
    assert(a =~~= (Position { fmc: a.fmc, ..b }));
}

} // verus!
