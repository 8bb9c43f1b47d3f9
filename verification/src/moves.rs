//! What holds of every legal move.
use crate::board::Position;
use crate::common::{Color, File, Man, Move, MoveFlag, Piece, Square};
use crate::{board, common, header};
use vstd::prelude::*;

verus! {

broadcast use crate::common::group_squares;

/// One if a man counts, else zero.
pub open spec fn one(man: Option<Man>, color: Option<Color>, piece: Option<Piece>) -> int {
    if board::fits(man, color, piece) {
        1
    } else {
        0
    }
}

/// How a count changes when one square changes.
pub proof fn lemma_tally_update(
    squares: Seq<Option<Man>>,
    color: Option<Color>,
    piece: Option<Piece>,
    i: int,
    man: Option<Man>,
    n: int,
)
    requires
        0 <= i < squares.len(),
        n <= squares.len(),
    ensures
        board::tally(squares.update(i, man), color, piece, n) == board::tally(
            squares,
            color,
            piece,
            n,
        ) + if i < n {
            one(man, color, piece) - one(squares[i], color, piece)
        } else {
            0
        },
    decreases n,
{
    if n > 0 {
        lemma_tally_update(squares, color, piece, i, man, n - 1);
    }
}

/// A legal move goes somewhere.
pub proof fn law_move_goes(p: Position, mv: Move)
    requires
        p.step(mv.src, mv.dest, mv.flag),
    ensures
        mv.src != mv.dest,
{
}

/// How a move changes how many men of a sort there are.
proof fn lemma_count_after(p: Position, mv: Move, color: Option<Color>, piece: Option<Piece>)
    requires
        p.squares.len() == 64,
        p.step(mv.src, mv.dest, mv.flag),
    ensures
        mv.flag.castles() is Some ==> p.after(mv).number(color, piece) == p.number(color, piece),
        mv.flag.castles() is None ==> ({
            let moved = match mv.flag.becomes() {
                Some(piece) => Some(Man { color: p.stm, piece }),
                None => p.on(mv.src),
            };
            let victim = if mv.flag == MoveFlag::EnPassant {
                p.man(mv.dest.file.at(), mv.src.rank.at())
            } else {
                p.on(mv.dest)
            };
            p.after(mv).number(color, piece) == p.number(color, piece) - one(
                p.on(mv.src),
                color,
                piece,
            ) - one(victim, color, piece) + one(moved, color, piece)
        }),
{
    let (s, t) = (mv.src, mv.dest);
    law_move_goes(p, mv);
    assert(Square::of(s.at()) == s && Square::of(t.at()) == t);
    assert(s.at() != t.at());
    let a = p.squares;
    match mv.flag.castles() {
        Some(dir) => {
            let king = Some(Man { color: p.stm, piece: Piece::King });
            let rook = Some(Man { color: p.stm, piece: Piece::Rook });
            let k = 8 * s.rank.at() + board::king_goal(dir);
            let r = 8 * s.rank.at() + board::rook_goal(dir);
            let b = a.update(s.at(), None);
            let c = b.update(t.at(), None);
            let d = c.update(k, king);
            assert(p.on(s) == king);
            assert(p.on(t) == rook);
            assert(c[k] is None) by {
                let f = board::king_goal(dir);
                assert(f == s.file.at() || f == t.file.at() || p.free(f, s.rank.at()));
            }
            assert(d[r] is None) by {
                let f = board::rook_goal(dir);
                assert(f == s.file.at() || f == t.file.at() || p.free(f, s.rank.at()));
            }
            lemma_tally_update(a, color, piece, s.at(), None, 64);
            lemma_tally_update(b, color, piece, t.at(), None, 64);
            lemma_tally_update(c, color, piece, k, king, 64);
            lemma_tally_update(d, color, piece, r, rook, 64);
        },
        None => {
            let moved = match mv.flag.becomes() {
                Some(piece) => Some(Man { color: p.stm, piece }),
                None => p.on(s),
            };
            let b = a.update(s.at(), None);
            let c = b.update(t.at(), moved);
            lemma_tally_update(a, color, piece, s.at(), None, 64);
            lemma_tally_update(b, color, piece, t.at(), moved, 64);
            if mv.flag == MoveFlag::EnPassant {
                let v = 8 * s.rank.at() + t.file.at();
                lemma_tally_update(c, color, piece, v, None, 64);
                assert(p.free(t.file.at(), t.rank.at()));
                assert(a[t.at()] is None);
                assert(v != s.at() && v != t.at());
            }
        },
    }
}

/// A move that takes leaves one man fewer, and any other as many as there were.
pub proof fn lemma_men_after(p: Position, mv: Move)
    requires
        p.squares.len() == 64,
        p.legal(mv),
    ensures
        p.after(mv).number(None, None) == p.number(None, None) - if mv.flag.takes() {
            1int
        } else {
            0
        },
{
    lemma_count_after(p, mv, None, None);
}

/// No move makes men.
pub proof fn law_men_do_not_grow(p: Position, mv: Move)
    requires
        p.squares.len() == 64,
        p.legal(mv),
    ensures
        p.after(mv).number(None, None) <= p.number(None, None),
        p.after(mv).squares.len() == 64,
{
    lemma_count_after(p, mv, None, None);
}

/// While no king is taken, each side keeps its kings.
pub proof fn law_kings_stay(p: Position, mv: Move, color: Color)
    requires
        p.squares.len() == 64,
        p.legal(mv),
        !p.takes_king(mv),
    ensures
        p.after(mv).number(Some(color), Some(Piece::King)) == p.number(
            Some(color),
            Some(Piece::King),
        ),
{
    lemma_count_after(p, mv, Some(color), Some(Piece::King));
}

/// A king that is taken is gone.
pub proof fn law_king_is_gone(p: Position, mv: Move)
    requires
        p.squares.len() == 64,
        p.legal(mv),
        p.takes_king(mv),
    ensures
        p.after(mv).number(Some(p.stm.opposite()), Some(Piece::King)) == p.number(
            Some(p.stm.opposite()),
            Some(Piece::King),
        ) - 1,
{
    lemma_count_after(p, mv, Some(p.stm.opposite()), Some(Piece::King));
}

/// A king that stands below `n` is counted.
pub proof fn lemma_king_counts(squares: Seq<Option<Man>>, color: Color, i: int, n: int)
    requires
        0 <= i < n <= squares.len(),
        squares[i] == Some(Man { color, piece: Piece::King }),
    ensures
        board::tally(squares, Some(color), Some(Piece::King), n) >= 1,
{
    lemma_two_kings(squares, color, i, i, n);
}

/// With one king of a color on the board, it stands on one square.
pub proof fn lemma_only_king(squares: Seq<Option<Man>>, color: Color, i: int, j: int)
    requires
        0 <= i < 64,
        0 <= j < 64,
        squares.len() == 64,
        squares[i] == Some(Man { color, piece: Piece::King }),
        squares[j] == Some(Man { color, piece: Piece::King }),
        board::tally(squares, Some(color), Some(Piece::King), 64) == 1,
    ensures
        i == j,
{
    if i < j {
        lemma_two_kings(squares, color, i, j, 64);
    } else if j < i {
        lemma_two_kings(squares, color, j, i, 64);
    }
}

/// What is no pawn and neither moves nor is taken stays.
proof fn lemma_bystander(p: Position, mv: Move, i: int)
    requires
        p.squares.len() == 64,
        p.step(mv.src, mv.dest, mv.flag),
        0 <= i < 64,
        p.squares[i] is Some,
        p.squares[i]->0.piece != Piece::Pawn,
        i != mv.src.at(),
        i != mv.dest.at(),
    ensures
        p.after(mv).squares[i] == p.squares[i],
{
    let (s, t) = (mv.src, mv.dest);
    match mv.flag.castles() {
        Some(dir) => {
            let k = board::king_goal(dir);
            let r = board::rook_goal(dir);
            assert(k == s.file.at() || k == t.file.at() || p.free(k, s.rank.at()));
            assert(r == s.file.at() || r == t.file.at() || p.free(r, s.rank.at()));
        },
        None => {},
    }
}

/// With one king of a color on the board, the king is where it was counted.
pub proof fn lemma_one_king(squares: Seq<Option<Man>>, color: Color, i: int, from: int)
    requires
        0 <= from <= i < 64,
        squares.len() == 64,
        squares[i] == Some(Man { color, piece: Piece::King }),
        board::tally(squares, Some(color), Some(Piece::King), 64) == 1,
        forall|j: int|
            0 <= j < from ==> #[trigger] squares[j] != Some(Man { color, piece: Piece::King }),
    ensures
        board::king_from(squares, color, from) == Some(Square::of(i)),
    decreases i - from,
{
    if from < i {
        if squares[from] == Some(Man { color, piece: Piece::King }) {
            lemma_two_kings(squares, color, from, i, 64);
        } else {
            lemma_one_king(squares, color, i, from + 1);
        }
    }
}

proof fn lemma_two_kings(squares: Seq<Option<Man>>, color: Color, i: int, j: int, n: int)
    requires
        0 <= i < n,
        n <= squares.len(),
        squares[i] == Some(Man { color, piece: Piece::King }),
    ensures
        board::tally(squares, Some(color), Some(Piece::King), n) >= if i < j < n && squares[j]
            == Some(Man { color, piece: Piece::King }) {
            2int
        } else {
            1
        },
    decreases n,
{
    board::lemma_tally_bounds(squares, Some(color), Some(Piece::King), n - 1);
    if i < n - 1 {
        lemma_two_kings(squares, color, i, j, n - 1);
    }
}

/// The first king is found.
pub proof fn lemma_first_king(squares: Seq<Option<Man>>, color: Color, i: int, from: int)
    requires
        0 <= from <= i < 64,
        squares[i] == Some(Man { color, piece: Piece::King }),
        forall|j: int|
            from <= j < i ==> #[trigger] squares[j] != Some(Man { color, piece: Piece::King }),
    ensures
        board::king_from(squares, color, from) == Some(Square::of(i)),
    decreases i - from,
{
    if from < i {
        lemma_first_king(squares, color, i, from + 1);
    }
}

/// Where the king was found, there is one.
pub proof fn lemma_king_there(squares: Seq<Option<Man>>, color: Color, from: int)
    requires
        0 <= from,
        squares.len() == 64,
        board::king_from(squares, color, from) is Some,
    ensures
        squares[board::king_from(squares, color, from)->0.at()] == Some(
            Man { color, piece: Piece::King },
        ),
    decreases 64 - from,
{
    if from < 64 && squares[from] != Some(Man { color, piece: Piece::King }) {
        lemma_king_there(squares, color, from + 1);
    }
}

/// With kings of a color on the board, one is found.
pub proof fn lemma_king_found(squares: Seq<Option<Man>>, color: Color, from: int)
    requires
        0 <= from <= 64,
        squares.len() == 64,
        board::tally(squares, Some(color), Some(Piece::King), 64) > board::tally(
            squares,
            Some(color),
            Some(Piece::King),
            from,
        ),
    ensures
        board::king_from(squares, color, from) is Some,
    decreases 64 - from,
{
    if from < 64 && squares[from] != Some(Man { color, piece: Piece::King }) {
        lemma_king_found(squares, color, from + 1);
    }
}

/// Castling rights go on fitting the men.
proof fn lemma_rights_after(p: Position, mv: Move, color: Color)
    requires
        p.squares.len() == 64,
        p.step(mv.src, mv.dest, mv.flag),
        !p.takes_king(mv),
        header::rights_fit(p, color),
        p.number(Some(color), Some(Piece::King)) == 1,
    ensures
        header::rights_fit(p.after(mv), color),
{
    let q = p.after(mv);
    let (s, t) = (mv.src, mv.dest);
    let king = Man { color, piece: Piece::King };
    assert(Square::of(s.at()) == s && Square::of(t.at()) == t);
    lemma_count_after(p, mv, Some(color), Some(Piece::King));
    if p.rights(color).short is Some || p.rights(color).long is Some {
        let k = board::king_from(p.squares, color, 0)->0;
        lemma_king_there(p.squares, color, 0);
        assert(Square::of(k.at()) == k);
        if p.on(s) == Some(king) {
            assert(q.rights(color) == (board::CastlingRights { short: None, long: None }));
        } else {
            assert(k.at() != s.at());
            assert(k.at() != t.at());
            lemma_bystander(p, mv, k.at());
            lemma_one_king(q.squares, color, k.at(), 0);
            lemma_rook_stays(p, mv, color, p.rights(color).short);
            lemma_rook_stays(p, mv, color, p.rights(color).long);
        }
    }
}

proof fn lemma_rook_stays(p: Position, mv: Move, color: Color, right: Option<File>)
    requires
        p.squares.len() == 64,
        p.step(mv.src, mv.dest, mv.flag),
        p.on(mv.src) != Some(Man { color, piece: Piece::King }),
        right matches Some(f) ==> p.squares[8 * common::relative(0, color) + f.at()] == Some(
            Man { color, piece: Piece::Rook },
        ),
    ensures
        right matches Some(f) ==> {
            ||| p.after(mv).squares[8 * common::relative(0, color) + f.at()] == Some(
                Man { color, piece: Piece::Rook },
            )
            ||| color == p.stm && mv.src.rank.seen_by(color) == 0 && mv.src.file == f
            ||| color != p.stm && mv.dest.rank.seen_by(color) == 0 && mv.dest.file == f
        },
{
    if right is Some {
        let f = right->0;
        let i = 8 * common::relative(0, color) + f.at();
        let (s, t) = (mv.src, mv.dest);
        assert(File::of(f.at()) == f);
        if i == s.at() {
            assert(s.rank.at() == common::relative(0, color) && s.file.at() == f.at());
            assert(File::of(s.file.at()) == s.file);
        } else if i == t.at() {
            assert(t.rank.at() == common::relative(0, color) && t.file.at() == f.at());
            assert(File::of(t.file.at()) == t.file);
            assert(color != p.stm);
        } else {
            lemma_bystander(p, mv, i);
        }
    }
}

/// A legal move that takes no king leads from a position that a header can hold to another one.
pub proof fn law_positions_stay_fitting(p: Position, mv: Move)
    requires
        header::fitting(p),
        p.number(Some(Color::White), Some(Piece::King)) == 1,
        p.number(Some(Color::Black), Some(Piece::King)) == 1,
        p.legal(mv),
        !p.takes_king(mv),
    ensures
        header::fitting(p.after(mv)),
        p.after(mv).number(Some(Color::White), Some(Piece::King)) == 1,
        p.after(mv).number(Some(Color::Black), Some(Piece::King)) == 1,
{
    law_kings_stay(p, mv, Color::White);
    law_kings_stay(p, mv, Color::Black);
    lemma_rights_after(p, mv, Color::White);
    lemma_rights_after(p, mv, Color::Black);
    lemma_pawns_inside(p, mv);
    lemma_passing_after(p, mv);
}

proof fn lemma_pawns_inside(p: Position, mv: Move)
    requires
        p.squares.len() == 64,
        p.step(mv.src, mv.dest, mv.flag),
        forall|i: int|
            0 <= i < 64 && (i < 8 || i >= 56) && p.squares[i] is Some ==> (
            #[trigger] p.squares[i])->0.piece != Piece::Pawn,
    ensures
        forall|i: int|
            0 <= i < 64 && (i < 8 || i >= 56) && p.after(mv).squares[i] is Some ==> (
            #[trigger] p.after(mv).squares[i])->0.piece != Piece::Pawn,
{
    let (s, t) = (mv.src, mv.dest);
    assert forall|i: int|
        0 <= i < 64 && (i < 8 || i >= 56) && p.after(mv).squares[i] is Some implies (
    #[trigger] p.after(mv).squares[i])->0.piece != Piece::Pawn by {
        assert(p.squares[i] is Some ==> p.squares[i]->0.piece != Piece::Pawn);
        if i == t.at() && mv.flag.castles() is None && mv.flag.becomes() is None {
            assert(s.rank.at() == 0 || s.rank.at() == 7 ==> p.on(s)->0.piece != Piece::Pawn);
            assert(t.rank.at() == i / 8);
        }
    }
}

proof fn lemma_passing_after(p: Position, mv: Move)
    requires
        p.squares.len() == 64,
        p.step(mv.src, mv.dest, mv.flag),
    ensures
        header::passing_pawn(p.after(mv)),
{
    if mv.flag == MoveFlag::DoublePush {
        let (s, t) = (mv.src, mv.dest);
        assert(p.on(s) == Some(Man { color: p.stm, piece: Piece::Pawn }));
        assert(t.rank.at() == common::relative(4, p.stm.opposite()));
        assert(8 * t.rank.at() + s.file.at() == t.at());
    }
}

} // verus!
