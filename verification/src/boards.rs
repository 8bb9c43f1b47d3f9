//! What the boards for training tell of a position.
use crate::board::Position;
use crate::common::{Color, Man, Piece};
use crate::error::ErrorKind;
use crate::format::{FormatError, GameOutcome, MoveRecord, GAME_TERMINATOR};
use crate::{board, bullet, games, header, moves};
use bulletformat::ChessBoard;
use vstd::prelude::*;

verus! {

broadcast use crate::common::group_squares;

/// The number of a piece in a board.
pub open spec fn piece_number(piece: Piece) -> int {
    match piece {
        Piece::Pawn => 0,
        Piece::Knight => 1,
        Piece::Bishop => 2,
        Piece::Rook => 3,
        Piece::Queen => 4,
        Piece::King => 5,
    }
}

/// A board is seen by the side to move: its own first rank comes first, and the files stay.
pub proof fn law_side_to_move_sees_the_board(p: Position, f: int, r: int)
    requires
        0 <= f < 8,
        0 <= r < 8,
    ensures
        bullet::seen(p).len() == 64,
        p.stm == Color::White ==> bullet::seen(p)[8 * r + f] == p.man(f, r),
        p.stm == Color::Black ==> bullet::seen(p)[8 * (7 - r) + f] == p.man(f, r),
{
}

/// A board tells which squares have men, and of each man, in the order of the squares and the lower
/// half of each byte first, its piece and whether it is the other side's.
pub proof fn law_boards_tell_the_men(
    p: Position,
    score: i16,
    outcome: GameOutcome,
    b: ChessBoard,
    i: int,
)
    requires
        0 <= i < 64,
        bullet::shows(p, score, outcome, b),
    ensures
        ((b.occ >> (i as u64)) & 1u64 == 1u64) == (bullet::seen(p)[i] is Some),
        bullet::seen(p)[i] matches Some(m) ==> ({
            let k = board::tally(bullet::seen(p), None, None, i);
            let byte = b.pcs@[k / 2] as int;
            let half = if k % 2 == 0 {
                byte % 16
            } else {
                byte / 16
            };
            half == piece_number(m.piece) + if m.color == p.stm {
                0int
            } else {
                8
            }
        }),
{
    assert(bullet::wide_bit(b.occ, i) == (bullet::seen(p)[i] is Some));
    if bullet::seen(p)[i] is Some {
        let k = bullet::seen_below(p, i);
        assert(bullet::nibble(b.pcs@, k) == bullet::relative_code(bullet::seen(p)[i]->0, p.stm));
    }
}

/// The score and the result are those of the side to move. A result is 2 for a win, 1 for a draw and
/// 0 for a loss. The lowest score has no opposite, and becomes the highest.
pub proof fn law_boards_tell_the_score(
    p: Position,
    score: i16,
    outcome: GameOutcome,
    b: ChessBoard,
)
    requires
        bullet::shows(p, score, outcome, b),
    ensures
        p.stm == Color::White ==> b.score == score,
        p.stm == Color::Black && score > -32768 ==> b.score == -score,
        p.stm == Color::Black && score == -32768 ==> b.score == 32767,
        outcome == GameOutcome::Draw ==> b.result == 1,
        (outcome == GameOutcome::WhiteWin) == (p.stm == Color::White) && outcome
            != GameOutcome::Draw ==> b.result == 2,
        (outcome == GameOutcome::WhiteWin) != (p.stm == Color::White) && outcome
            != GameOutcome::Draw ==> b.result == 0,
{
}

/// A board tells where the kings and the duck stand: the king of the side to move and the duck as
/// that side sees them, the other king as the other side sees it. The number 64 stands for no duck.
pub proof fn law_boards_tell_kings_and_duck(
    p: Position,
    score: i16,
    outcome: GameOutcome,
    b: ChessBoard,
)
    requires
        bullet::shows(p, score, outcome, b),
        p.squares.len() == 64,
        p.number(Some(Color::White), Some(Piece::King)) == 1,
        p.number(Some(Color::Black), Some(Piece::King)) == 1,
    ensures
        p.king(p.stm) matches Some(k) && b.ksq == k.file.at() + 8 * match p.stm {
            Color::White => k.rank.at(),
            Color::Black => 7 - k.rank.at(),
        },
        p.king(p.stm.opposite()) matches Some(k) && b.opp_ksq == k.file.at() + 8 * match p.stm {
            Color::White => 7 - k.rank.at(),
            Color::Black => k.rank.at(),
        },
        p.duck is None ==> b.extra@[0] == 64,
        p.duck matches Some(d) ==> b.extra@[0] == d.file.at() + 8 * match p.stm {
            Color::White => d.rank.at(),
            Color::Black => 7 - d.rank.at(),
        },
        b.extra@[1] == 0 && b.extra@[2] == 0,
{
    let own = match p.stm {
        Color::White => b.ksq as int,
        Color::Black => 8 * (7 - b.ksq as int / 8) + b.ksq as int % 8,
    };
    let far = match p.stm {
        Color::White => 8 * (7 - b.opp_ksq as int / 8) + b.opp_ksq as int % 8,
        Color::Black => b.opp_ksq as int,
    };
    assert(p.squares[own] == Some(Man { color: p.stm, piece: Piece::King }));
    assert(p.squares[far] == Some(Man { color: p.stm.opposite(), piece: Piece::King }));
    moves::lemma_one_king(p.squares, p.stm, own, 0);
    moves::lemma_one_king(p.squares, p.stm.opposite(), far, 0);
}

/// What a header can hold, a board can show; and what a board can show, a header can hold, if the
/// turns are counted from 1 and the duck stands on no man.
pub proof fn law_what_can_be_shown(p: Position)
    requires
        p.squares.len() == 64,
    ensures
        header::pack_fault(p) is None ==> bullet::show_fault(p) is None,
        bullet::show_fault(p) is None && p.fmc > 0 && (p.duck is Some ==> p.squares[p.duck->0.at()]
            is None) ==> header::pack_fault(p) is None,
{
    if bullet::show_fault(p) is None {
        assert(p.number(Some(Color::White), Some(Piece::King)) == 1);
        assert(p.number(Some(Color::Black), Some(Piece::King)) == 1);
        board::lemma_tally_bounds(p.squares, Some(Color::White), Some(Piece::King), 64);
        lemma_kings_are_men(p.squares, Color::White, 64);
    }
}

proof fn lemma_kings_are_men(squares: Seq<Option<Man>>, color: Color, n: int)
    requires
        n <= squares.len(),
    ensures
        board::tally(squares, Some(color), Some(Piece::King), n) <= board::tally(
            squares,
            None,
            None,
            n,
        ),
    decreases n,
{
    if n > 0 {
        lemma_kings_are_men(squares, color, n - 1);
    }
}

/// A game can be walked from the position in its header, however many records stand between the
/// header and the terminator. Without a terminator it cannot.
pub proof fn law_walks_start_at_the_header(p: Position, outcome: GameOutcome, body: Seq<u8>)
    requires
        header::fitting(p),
        header::pack_fault(p) is None,
        body.len() % 5 == 0,
    ensures
        bullet::walk_start(header::header_of(p, outcome) + body + GAME_TERMINATOR@) == Ok::<
            (Position, GameOutcome),
            (ErrorKind, Seq<char>),
        >((p, outcome)),
        body.len() >= 5 && body.skip(body.len() - 5) != GAME_TERMINATOR@ ==> bullet::walk_start(
            header::header_of(p, outcome) + body,
        ) is Err,
{
    let h = header::header_of(p, outcome);
    header::law_header_exists(p, outcome);
    header::law_header_round_trip(p, outcome, h);
    assert(h.len() == 32);
    assert(crate::format::outcome_of(h[30]) == Ok::<GameOutcome, FormatError>(outcome));
    lemma_game_parts(h, body);
}

proof fn lemma_game_parts(h: Seq<u8>, body: Seq<u8>)
    requires
        h.len() == 32,
        body.len() % 5 == 0,
    ensures
        ({
            let g = h + body + GAME_TERMINATOR@;
            &&& games::terminated(g)
            &&& g.len() >= 37
            &&& g.take(32) == h
            &&& g[30] == h[30]
        }),
        body.len() >= 5 && body.skip(body.len() - 5) != GAME_TERMINATOR@ ==> !games::terminated(
            h + body,
        ),
{
    let g = h + body + GAME_TERMINATOR@;
    let n = g.len() as int;
    assert(GAME_TERMINATOR@.len() == 5);
    assert(g.subrange(n - 5, n) =~= GAME_TERMINATOR@);
    assert(g.take(32) =~= h);
    let t = h + body;
    if body.len() >= 5 {
        let m = t.len() as int;
        assert(t.subrange(m - 5, m) =~= body.skip(body.len() - 5));
    }
}

/// Only a position that is picked has to be shown: then there are at most 32 men and one king of
/// each color. The move of every position has to be one that can be replayed.
pub proof fn law_picks_decide(p: Position, record: MoveRecord)
    ensures
        bullet::walk_fault(p, record, false) is None <==> games::replay_fault(p, record.mv) is None,
        bullet::walk_fault(p, record, true) is None <==> {
            &&& games::replay_fault(p, record.mv) is None
            &&& p.number(None, None) <= 32
            &&& p.number(Some(Color::White), Some(Piece::King)) == 1
            &&& p.number(Some(Color::Black), Some(Piece::King)) == 1
        },
{
}

} // verus!
