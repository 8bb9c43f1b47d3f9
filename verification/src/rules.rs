//! How men move and what a move changes, square by square.
use crate::board::Position;
use crate::common::{Color, File, Man, Move, MoveFlag, Piece, Rank, Square};
use crate::{board, moves};
use vstd::prelude::*;

verus! {

broadcast use crate::common::group_squares;

/// Whether a square holds neither a man nor the duck.
pub open spec fn empty(p: Position, f: int, r: int) -> bool {
    &&& 0 <= f < 8
    &&& 0 <= r < 8
    &&& p.squares[8 * r + f] is None
    &&& p.duck is Some ==> !(p.duck->0.file.at() == f && p.duck->0.rank.at() == r)
}

/// Whether a man of the other side stands on a square, and not the duck.
pub open spec fn prey(p: Position, t: Square) -> bool {
    &&& p.squares[8 * t.rank.at() + t.file.at()] is Some
    &&& p.squares[8 * t.rank.at() + t.file.at()]->0.color != p.stm
    &&& p.duck != Some(t)
}

/// Whether the squares strictly between two squares of a rank, a file or a diagonal are empty.
pub open spec fn open_way(p: Position, s: Square, t: Square) -> bool {
    let (a, b) = (s.file.at(), s.rank.at());
    let (c, d) = (t.file.at(), t.rank.at());
    if b == d {
        forall|f: int| (a < f < c || c < f < a) ==> #[trigger] empty(p, f, b)
    } else if a == c {
        forall|r: int| (b < r < d || d < r < b) ==> #[trigger] empty(p, a, r)
    } else if c - a == d - b {
        forall|f: int| (a < f < c || c < f < a) ==> #[trigger] empty(p, f, b + (f - a))
    } else {
        forall|f: int| (a < f < c || c < f < a) ==> #[trigger] empty(p, f, b - (f - a))
    }
}

/// Whether a piece goes so many files and ranks, by the squares of the distances.
pub open spec fn goes(piece: Piece, dx: int, dy: int) -> bool {
    match piece {
        Piece::Pawn => false,
        Piece::Knight => dx * dx + dy * dy == 5,
        Piece::King => 0 < dx * dx + dy * dy <= 2,
        Piece::Bishop => dx * dx == dy * dy && dx != 0,
        Piece::Rook => dx * dy == 0 && dx != dy,
        Piece::Queen => (dx * dx == dy * dy && dx != 0) || (dx * dy == 0 && dx != dy),
    }
}

proof fn lemma_squared(dx: int, dy: int)
    requires
        -7 <= dx <= 7,
        -7 <= dy <= 7,
    ensures
        dx * dx + dy * dy == 5 <==> (board::abs(dx) == 1 && board::abs(dy) == 2) || (board::abs(dx)
            == 2 && board::abs(dy) == 1),
        0 < dx * dx + dy * dy <= 2 <==> board::span(dx, dy) == 1,
        dx * dx == dy * dy <==> board::abs(dx) == board::abs(dy),
        dx * dy == 0 <==> dx == 0 || dy == 0,
{
    let (a, b) = (board::abs(dx), board::abs(dy));
    assert(dx * dx == a * a) by (nonlinear_arith)
        requires
            a == dx || a == -dx,
    ;
    assert(dy * dy == b * b) by (nonlinear_arith)
        requires
            b == dy || b == -dy,
    ;
    assert(dx * dy == 0 <==> dx == 0 || dy == 0) by (nonlinear_arith);
    lemma_square_of(a);
    lemma_square_of(b);
}

proof fn lemma_square_of(a: int)
    requires
        0 <= a <= 7,
    ensures
        a * a == if a == 0 {
            0int
        } else if a == 1 {
            1
        } else if a == 2 {
            4
        } else if a == 3 {
            9
        } else if a == 4 {
            16
        } else if a == 5 {
            25
        } else if a == 6 {
            36
        } else {
            49
        },
{
    if a == 0 {
    } else if a == 1 {
    } else if a == 2 {
    } else if a == 3 {
    } else if a == 4 {
    } else if a == 5 {
    } else if a == 6 {
    } else {
        assert(a == 7);
    }
}

proof fn lemma_empty(p: Position, f: int, r: int)
    ensures
        p.free(f, r) == empty(p, f, r),
{
}

proof fn lemma_way(p: Position, s: Square, t: Square)
    requires
        s != t,
        s.file == t.file || s.rank == t.rank || board::abs(t.file.at() - s.file.at()) == board::abs(
            t.rank.at() - s.rank.at(),
        ),
    ensures
        p.clear(s, t) == open_way(p, s, t),
{
    let (a, b) = (s.file.at(), s.rank.at());
    let (c, d) = (t.file.at(), t.rank.at());
    let n = board::span(c - a, d - b);
    assert(File::of(a) == s.file && File::of(c) == t.file);
    assert(Rank::of(b) == s.rank && Rank::of(d) == t.rank);
    assert forall|f: int, r: int| #[trigger] p.free(f, r) == empty(p, f, r) by {}
    if open_way(p, s, t) {
        assert forall|k: int| 0 < k < n implies #[trigger] p.free_on_way(s, t, k) by {
            let f = a + board::along(k, c - a);
            let r = b + board::along(k, d - b);
            assert(empty(p, f, r)) by {
                if b == d {
                    assert(empty(p, f, b));
                } else if a == c {
                    assert(empty(p, a, r));
                } else if c - a == d - b {
                    assert(r == b + (f - a));
                    assert(empty(p, f, b + (f - a)));
                } else {
                    assert(r == b - (f - a));
                    assert(empty(p, f, b - (f - a)));
                }
            }
        }
    }
    if p.clear(s, t) {
        if a == c {
            assert forall|r: int| (b < r < d || d < r < b) implies #[trigger] empty(p, a, r) by {
                assert(p.free_on_way(s, t, board::abs(r - b)));
            }
        } else {
            assert forall|f: int| (a < f < c || c < f < a) implies p.free_on_way(
                s,
                t,
                #[trigger] board::abs(f - a),
            ) by {}
            if b == d {
                assert forall|f: int| (a < f < c || c < f < a) implies #[trigger] empty(p, f, b) by {
                    assert(p.free_on_way(s, t, board::abs(f - a)));
                }
            } else if c - a == d - b {
                assert forall|f: int| (a < f < c || c < f < a) implies #[trigger] empty(
                    p,
                    f,
                    b + (f - a),
                ) by {
                    assert(p.free_on_way(s, t, board::abs(f - a)));
                }
            } else {
                assert forall|f: int| (a < f < c || c < f < a) implies #[trigger] empty(
                    p,
                    f,
                    b - (f - a),
                ) by {
                    assert(p.free_on_way(s, t, board::abs(f - a)));
                }
            }
        }
    }
}

/// How pieces move that are no pawns, castling aside: a knight jumps a distance whose square is 5,
/// the king one whose square is 1 or 2; a rook, a bishop and the queen go along lines whose squares
/// are empty. The move ends on an empty square, or on a man of the other side, which it takes.
pub proof fn law_pieces_move(p: Position, s: Square, t: Square, flag: MoveFlag, piece: Piece)
    requires
        p.squares.len() == 64,
        p.squares[8 * s.rank.at() + s.file.at()] == Some(Man { color: p.stm, piece }),
        piece != Piece::Pawn,
        flag != MoveFlag::ShortCastling,
        flag != MoveFlag::LongCastling,
    ensures
        p.step(s, t, flag) <==> {
            &&& goes(piece, t.file.at() - s.file.at(), t.rank.at() - s.rank.at())
            &&& piece == Piece::Knight || piece == Piece::King || open_way(p, s, t)
            &&& (flag == MoveFlag::Normal && empty(p, t.file.at(), t.rank.at())) || (flag
                == MoveFlag::Capture && prey(p, t))
        },
{
    let dx = t.file.at() - s.file.at();
    let dy = t.rank.at() - s.rank.at();
    lemma_squared(dx, dy);
    assert(p.on(s) == Some(Man { color: p.stm, piece }));
    assert(File::of(s.file.at()) == s.file && File::of(t.file.at()) == t.file);
    assert(Rank::of(s.rank.at()) == s.rank && Rank::of(t.rank.at()) == t.rank);
    if p.duck is Some {
        let d = p.duck->0;
        assert(File::of(d.file.at()) == d.file && Rank::of(d.rank.at()) == d.rank);
    }
    if s != t && (dx == 0 || dy == 0 || board::abs(dx) == board::abs(dy)) {
        lemma_way(p, s, t);
    }
    match p.stm {
        Color::White => {},
        Color::Black => {},
    }
}

/// Whether `flag` is one of the four promotions without a capture.
pub open spec fn quiet_promotion(flag: MoveFlag) -> bool {
    flag == MoveFlag::PromotionQueen || flag == MoveFlag::PromotionRook || flag
        == MoveFlag::PromotionBishop || flag == MoveFlag::PromotionKnight
}

/// Whether `flag` is one of the four promotions with a capture.
pub open spec fn capture_promotion(flag: MoveFlag) -> bool {
    flag == MoveFlag::CapturePromotionQueen || flag == MoveFlag::CapturePromotionRook || flag
        == MoveFlag::CapturePromotionBishop || flag == MoveFlag::CapturePromotionKnight
}

/// How White's pawns move. Ahead to an empty square; two ranks from the second rank over an empty
/// square; to a neighbouring file they take. On the last rank, and only there, a pawn is promoted. A
/// pawn that has just gone two ranks is taken in passing, on the sixth rank, where it passed. (The
/// rules are the same for Black's pawns.)
pub proof fn law_white_pawns_move(p: Position, s: Square, t: Square, flag: MoveFlag)
    requires
        p.squares.len() == 64,
        p.stm == Color::White,
        p.squares[8 * s.rank.at() + s.file.at()] == Some(
            Man { color: Color::White, piece: Piece::Pawn },
        ),
    ensures
        p.step(s, t, flag) <==> {
            let (a, b) = (s.file.at(), s.rank.at());
            let (c, d) = (t.file.at(), t.rank.at());
            let ahead = c == a && d == b + 1 && empty(p, c, d);
            let beside = (c == a + 1 || a == c + 1) && d == b + 1;
            ||| flag == MoveFlag::Normal && ahead && d < 7
            ||| quiet_promotion(flag) && ahead && d == 7
            ||| flag == MoveFlag::DoublePush && c == a && b == 1 && d == 3 && empty(p, c, 2)
                && empty(p, c, 3)
            ||| flag == MoveFlag::Capture && beside && prey(p, t) && d < 7
            ||| capture_promotion(flag) && beside && prey(p, t) && d == 7
            ||| flag == MoveFlag::EnPassant && beside && d == 5 && empty(p, c, d) && p.en_passant
                == Some(t.file) && p.squares[8 * 4 + c] == Some(
                Man { color: Color::Black, piece: Piece::Pawn },
            )
        },
{
    assert(p.on(s) == Some(Man { color: p.stm, piece: Piece::Pawn }));
    assert forall|f: int, r: int| #[trigger] p.free(f, r) == empty(p, f, r) by {}
    let takes = p.color_at(t) == Some(Color::Black) && p.duck != Some(t);
    assert(takes == prey(p, t));
}

/// Castling with king and rook at home: when the right is there and the squares between them are
/// empty, the side to move may castle, whichever side it is, and put the duck on any empty square but
/// its own. The king comes to the g-file or the c-file, and the rook stands on its inner side.
pub proof fn law_castling_from_home(p: Position, duck: Square)
    requires
        p.squares.len() == 64,
    ensures
        ({
            let r = if p.stm == Color::White {
                0int
            } else {
                7
            };
            let rights = if p.stm == Color::White {
                p.white_castling
            } else {
                p.black_castling
            };
            let home = Rank::of(r);
            let king = Some(Man { color: p.stm, piece: Piece::King });
            let rook = Some(Man { color: p.stm, piece: Piece::Rook });
            let src = Square { file: File::E, rank: home };
            let short = Move {
                src,
                dest: Square { file: File::H, rank: home },
                duck,
                flag: MoveFlag::ShortCastling,
            };
            let long = Move {
                src,
                dest: Square { file: File::A, rank: home },
                duck,
                flag: MoveFlag::LongCastling,
            };
            &&& {
                &&& p.squares[8 * r + 4] == king
                &&& p.squares[8 * r + 7] == rook
                &&& rights.short == Some(File::H)
                &&& empty(p, 5, r)
                &&& empty(p, 6, r)
            } ==> {
                let men = p.squares.update(8 * r + 4, None).update(8 * r + 5, rook).update(
                    8 * r + 6,
                    king,
                ).update(8 * r + 7, None);
                &&& p.after(short).squares == men
                &&& p.legal(short) <==> men[duck.at()] is None && p.duck != Some(duck)
            }
            &&& {
                &&& p.squares[8 * r + 4] == king
                &&& p.squares[8 * r] == rook
                &&& rights.long == Some(File::A)
                &&& empty(p, 1, r)
                &&& empty(p, 2, r)
                &&& empty(p, 3, r)
            } ==> {
                let men = p.squares.update(8 * r + 4, None).update(8 * r + 3, rook).update(
                    8 * r + 2,
                    king,
                ).update(8 * r, None);
                &&& p.after(long).squares == men
                &&& p.legal(long) <==> men[duck.at()] is None && p.duck != Some(duck)
            }
        }),
{
    let r = if p.stm == Color::White {
        0int
    } else {
        7
    };
    assert(Rank::of(r).at() == r);
    assert forall|f: int| #[trigger] p.free(f, r) == empty(p, f, r) by {}
    let home = Rank::of(r);
    let src = Square { file: File::E, rank: home };
    let short = Move {
        src,
        dest: Square { file: File::H, rank: home },
        duck,
        flag: MoveFlag::ShortCastling,
    };
    let long = Move {
        src,
        dest: Square { file: File::A, rank: home },
        duck,
        flag: MoveFlag::LongCastling,
    };
    let king = Some(Man { color: p.stm, piece: Piece::King });
    let rook = Some(Man { color: p.stm, piece: Piece::Rook });
    assert(p.after(short).squares =~= p.squares.update(8 * r + 4, None).update(
        8 * r + 5,
        rook,
    ).update(8 * r + 6, king).update(8 * r + 7, None));
    assert(p.after(long).squares =~= p.squares.update(8 * r + 4, None).update(8 * r + 3, rook).update(
        8 * r + 2,
        king,
    ).update(8 * r, None));
}

/// What a legal move that does not castle changes on the board: the source is left, the man that
/// moved or what it became is on the destination, a pawn that is taken in passing is gone from beside
/// the source, and everything else stays.
pub proof fn law_move_changes_its_squares(p: Position, mv: Move, x: Square)
    requires
        p.squares.len() == 64,
        p.legal(mv),
        mv.flag != MoveFlag::ShortCastling,
        mv.flag != MoveFlag::LongCastling,
    ensures
        ({
            let now = p.after(mv).squares[8 * x.rank.at() + x.file.at()];
            let was = p.squares[8 * x.rank.at() + x.file.at()];
            let mover = p.squares[8 * mv.src.rank.at() + mv.src.file.at()];
            if x == mv.dest {
                &&& now is Some
                &&& now->0.color == p.stm
                &&& match mv.flag {
                    MoveFlag::PromotionQueen => now->0.piece == Piece::Queen,
                    MoveFlag::CapturePromotionQueen => now->0.piece == Piece::Queen,
                    MoveFlag::PromotionRook => now->0.piece == Piece::Rook,
                    MoveFlag::CapturePromotionRook => now->0.piece == Piece::Rook,
                    MoveFlag::PromotionBishop => now->0.piece == Piece::Bishop,
                    MoveFlag::CapturePromotionBishop => now->0.piece == Piece::Bishop,
                    MoveFlag::PromotionKnight => now->0.piece == Piece::Knight,
                    MoveFlag::CapturePromotionKnight => now->0.piece == Piece::Knight,
                    _ => now == mover,
                }
            } else if x == mv.src {
                now is None
            } else if mv.flag == MoveFlag::EnPassant && x.file == mv.dest.file && x.rank
                == mv.src.rank {
                was is Some && was->0.piece == Piece::Pawn && was->0.color != p.stm && now is None
            } else {
                now == was
            }
        }),
{
    moves::law_move_goes(p, mv);
    let (s, t) = (mv.src, mv.dest);
    assert(Square::of(s.at()) == s && Square::of(t.at()) == t && Square::of(x.at()) == x);
    let v = Square { file: t.file, rank: s.rank };
    assert(Square::of(v.at()) == v);
    assert(v.at() == 8 * s.rank.at() + t.file.at());
    match p.stm {
        Color::White => {},
        Color::Black => {},
    }
}

/// Where the duck may go: to a square that is empty once the man has moved, but not where it stands.
/// There it is afterwards.
pub proof fn law_duck_moves(p: Position, mv: Move)
    requires
        p.squares.len() == 64,
    ensures
        p.legal(mv) <==> {
            &&& p.step(mv.src, mv.dest, mv.flag)
            &&& p.after(mv).squares[8 * mv.duck.rank.at() + mv.duck.file.at()] is None
            &&& p.duck is Some ==> p.duck->0 != mv.duck
        },
        p.after(mv).duck == Some(mv.duck),
        p.after(mv).stm != p.stm,
{
}

/// The clock of quiet turns starts anew when a pawn moves or there are fewer men, and else goes on. A
/// pawn may be taken in passing just after it went two ranks.
pub proof fn law_clocks_go_on(p: Position, mv: Move)
    requires
        p.squares.len() == 64,
        p.legal(mv),
        p.hmc < 255,
    ensures
        ({
            let m = p.squares[8 * mv.src.rank.at() + mv.src.file.at()]->0;
            let way = mv.dest.rank.at() - mv.src.rank.at();
            let q = p.after(mv);
            let fewer = q.number(None, None) < p.number(None, None);
            &&& q.hmc == if m.piece == Piece::Pawn || fewer {
                0
            } else {
                p.hmc + 1
            }
            &&& q.en_passant == if m.piece == Piece::Pawn && (way == 2 || way == -2) {
                Some(mv.dest.file)
            } else {
                None
            }
        }),
{
    moves::lemma_men_after(p, mv);
    assert(File::of(mv.src.file.at()) == mv.src.file);
    assert(File::of(mv.dest.file.at()) == mv.dest.file);
    match p.stm {
        Color::White => {},
        Color::Black => {},
    }
}

/// A castling right is lost just when the king moves, or the rook of the right moves or is taken.
pub proof fn law_rights_are_kept(p: Position, mv: Move, color: Color)
    requires
        p.squares.len() == 64,
        p.legal(mv),
    ensures
        ({
            let home = if color == Color::White {
                Rank::First
            } else {
                Rank::Eighth
            };
            let was = if color == Color::White {
                p.white_castling
            } else {
                p.black_castling
            };
            let now = if color == Color::White {
                p.after(mv).white_castling
            } else {
                p.after(mv).black_castling
            };
            let king_moved = p.squares[8 * mv.src.rank.at() + mv.src.file.at()] == Some(
                Man { color, piece: Piece::King },
            );
            let touched = if color == p.stm {
                mv.src
            } else {
                mv.dest
            };
            &&& now.short == if king_moved || (touched.rank == home && was.short == Some(
                touched.file,
            )) {
                None
            } else {
                was.short
            }
            &&& now.long == if king_moved || (touched.rank == home && was.long == Some(
                touched.file,
            )) {
                None
            } else {
                was.long
            }
        }),
{
    assert(Rank::of(mv.src.rank.at()) == mv.src.rank);
    assert(Rank::of(mv.dest.rank.at()) == mv.dest.rank);
    match p.stm {
        Color::White => {},
        Color::Black => {},
    }
}

/// Whether a square of a rank is empty, or the king or the rook that castles stands on it.
pub open spec fn passable(p: Position, s: Square, t: Square, f: int) -> bool {
    f == s.file.at() || f == t.file.at() || empty(p, f, s.rank.at())
}

/// Castling from any files: the king goes to the g-file or the c-file, the rook to the f-file or the
/// d-file. A side may castle just when it has the right to, with that rook, on its first rank, and
/// nothing else stands on the way of the king or of the rook.
pub proof fn law_castling_needs_room(p: Position, s: Square, t: Square, short: bool)
    requires
        p.squares.len() == 64,
        s != t,
    ensures
        ({
            let flag = if short {
                MoveFlag::ShortCastling
            } else {
                MoveFlag::LongCastling
            };
            let (k, r) = if short {
                (6int, 5int)
            } else {
                (2int, 3int)
            };
            let home = if p.stm == Color::White {
                Rank::First
            } else {
                Rank::Eighth
            };
            let rights = if p.stm == Color::White {
                p.white_castling
            } else {
                p.black_castling
            };
            let right = if short {
                rights.short
            } else {
                rights.long
            };
            let (a, b) = (s.file.at(), t.file.at());
            p.step(s, t, flag) <==> {
                &&& p.squares[8 * s.rank.at() + a] == Some(Man { color: p.stm, piece: Piece::King })
                &&& p.squares[8 * t.rank.at() + b] == Some(Man { color: p.stm, piece: Piece::Rook })
                &&& s.rank == home
                &&& t.rank == home
                &&& right == Some(t.file)
                &&& forall|f: int|
                    (a <= f <= k || k <= f <= a || b <= f <= r || r <= f <= b || a <= f <= b || b <= f
                        <= a) ==> #[trigger] passable(p, s, t, f)
            }
        }),
{
    assert(Rank::of(s.rank.at()) == s.rank && Rank::of(t.rank.at()) == t.rank);
    assert(File::of(s.file.at()) == s.file && File::of(t.file.at()) == t.file);
    let h = s.rank.at();
    assert forall|f: int| #[trigger] p.free(f, h) == empty(p, f, h) by {}
    let flag = if short {
        MoveFlag::ShortCastling
    } else {
        MoveFlag::LongCastling
    };
    let dir = flag.castles()->0;
    let (a, b) = (s.file.at(), t.file.at());
    let (k, r) = if short {
        (6int, 5int)
    } else {
        (2int, 3int)
    };
    let low = board::castle_low(s, t, dir);
    let high = board::castle_high(s, t, dir);
    if p.step(s, t, flag) {
        assert forall|f: int|
            (a <= f <= k || k <= f <= a || b <= f <= r || r <= f <= b || a <= f <= b || b <= f
                <= a) implies #[trigger] passable(p, s, t, f) by {
            assert(low <= f <= high);
            if f != a && f != b {
                assert(p.free(f, h));
            }
        }
    }
    if forall|f: int|
        (a <= f <= k || k <= f <= a || b <= f <= r || r <= f <= b || a <= f <= b || b <= f <= a)
            ==> #[trigger] passable(p, s, t, f) {
        assert forall|f: int| low <= f <= high && f != a && f != b implies #[trigger] p.free(f, h) by {
            assert(passable(p, s, t, f));
        }
    }
    match p.stm {
        Color::White => {},
        Color::Black => {},
    }
}

/// What castling changes: the king and the rook leave their squares and stand on the g-file and the
/// f-file, or on the c-file and the d-file, and everything else stays.
pub proof fn law_castling_changes_its_squares(p: Position, mv: Move, x: Square)
    requires
        p.squares.len() == 64,
        p.legal(mv),
        mv.flag == MoveFlag::ShortCastling || mv.flag == MoveFlag::LongCastling,
    ensures
        ({
            let (k, r) = if mv.flag == MoveFlag::ShortCastling {
                (File::G, File::F)
            } else {
                (File::C, File::D)
            };
            let now = p.after(mv).squares[8 * x.rank.at() + x.file.at()];
            if x.rank == mv.src.rank && x.file == k {
                now == Some(Man { color: p.stm, piece: Piece::King })
            } else if x.rank == mv.src.rank && x.file == r {
                now == Some(Man { color: p.stm, piece: Piece::Rook })
            } else if x == mv.src || x == mv.dest {
                now is None
            } else {
                now == p.squares[8 * x.rank.at() + x.file.at()]
            }
        }),
{
    let (s, t) = (mv.src, mv.dest);
    assert(Square::of(s.at()) == s && Square::of(t.at()) == t && Square::of(x.at()) == x);
    assert(Rank::of(s.rank.at()) == s.rank && Rank::of(x.rank.at()) == x.rank);
    assert(File::of(x.file.at()) == x.file);
    let kf = if mv.flag == MoveFlag::ShortCastling {
        File::G
    } else {
        File::C
    };
    let rf = if mv.flag == MoveFlag::ShortCastling {
        File::F
    } else {
        File::D
    };
    let king = Square { file: kf, rank: s.rank };
    let rook = Square { file: rf, rank: s.rank };
    assert(Square::of(king.at()) == king && Square::of(rook.at()) == rook);
}

} // verus!
