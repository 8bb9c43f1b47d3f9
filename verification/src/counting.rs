//! What is counted of a position and of a game.
use crate::analyse::Census;
use crate::board::Position;
use crate::common::{Color, Man, Piece};
use crate::format::MoveRecord;
use crate::{analyse, board, games, hashing, header, moves, sums};
use vstd::prelude::*;

verus! {

broadcast use crate::common::group_squares;

/// Whether `w` is `v` with one more at `i`.
pub open spec fn raised(v: Seq<u64>, w: Seq<u64>, i: int) -> bool {
    &&& 0 <= i < v.len()
    &&& w.len() == v.len()
    &&& w[i] == v[i] + 1
    &&& forall|j: int| 0 <= j < v.len() && j != i ==> #[trigger] w[j] == v[j]
}

/// A man more counts once for its color, once for its kind and once for all, and for no other. An
/// empty board counts nothing.
pub proof fn law_men_are_counted(
    p: Position,
    i: int,
    m: Man,
    color: Option<Color>,
    piece: Option<Piece>,
)
    requires
        p.squares.len() == 64,
        0 <= i < 64,
        p.squares[i] is None,
    ensures
        ({
            let q = Position { squares: p.squares.update(i, Some(m)), ..p };
            let counts = (color is None || color->0 == m.color) && (piece is None || piece->0
                == m.piece);
            q.number(color, piece) == p.number(color, piece) + if counts {
                1int
            } else {
                0
            }
        }),
        (forall|j: int| 0 <= j < 64 ==> (#[trigger] p.squares[j]) is None) ==> p.number(
            color,
            piece,
        ) == 0,
{
    moves::lemma_tally_update(p.squares, color, piece, i, Some(m), 64);
    if forall|j: int| 0 <= j < 64 ==> (#[trigger] p.squares[j]) is None {
        lemma_nothing_counted(p.squares, color, piece, 64);
    }
}

proof fn lemma_nothing_counted(
    squares: Seq<Option<Man>>,
    color: Option<Color>,
    piece: Option<Piece>,
    n: int,
)
    requires
        n <= 64,
        forall|j: int| 0 <= j < 64 ==> (#[trigger] squares[j]) is None,
    ensures
        board::tally(squares, color, piece, n) == 0,
    decreases n,
{
    if n > 0 {
        lemma_nothing_counted(squares, color, piece, n - 1);
    }
}

/// A man more brings a position away from the end of the game: a knight or a bishop by 1, a rook by
/// 2, a queen by 4, a king or a pawn not at all.
pub proof fn law_phases_have_weights(p: Position, i: int, m: Man)
    requires
        p.squares.len() == 64,
        0 <= i < 64,
        p.squares[i] is None,
    ensures
        analyse::phase(Position { squares: p.squares.update(i, Some(m)), ..p }) == analyse::phase(p)
            + match m.piece {
            Piece::Pawn => 0int,
            Piece::Knight => 1,
            Piece::Bishop => 1,
            Piece::Rook => 2,
            Piece::Queen => 4,
            Piece::King => 0,
        },
        (forall|j: int| 0 <= j < 64 ==> (#[trigger] p.squares[j]) is None) ==> analyse::phase(p)
            == 0,
{
    law_men_are_counted(p, i, m, None, Some(Piece::Knight));
    law_men_are_counted(p, i, m, None, Some(Piece::Bishop));
    law_men_are_counted(p, i, m, None, Some(Piece::Rook));
    law_men_are_counted(p, i, m, None, Some(Piece::Queen));
}

/// Counting a position raises one entry of the king's squares by one, that of a square which holds
/// the king of the side to move, for Black with the board turned upside down.
pub proof fn law_kings_are_counted(c: Census, p: Position, score: i16)
    requires
        c.wf(),
        c.positions < u64::MAX,
        p.squares.len() == 64,
        p.king(p.stm) is Some,
    ensures
        exists|k: int|
            {
                let square = if p.stm == Color::White {
                    k
                } else {
                    8 * (7 - k / 8) + k % 8
                };
                &&& 0 <= k < 64
                &&& #[trigger] raised(c.kings, c.after_position(p, score).kings, k)
                &&& p.squares[square] == Some(Man { color: p.stm, piece: Piece::King })
            },
{
    let king = p.king(p.stm)->0;
    moves::lemma_king_there(p.squares, p.stm, 0);
    let k = analyse::king_bucket(p);
    let (f, r) = (king.file.at(), king.rank.at());
    assert(king.at() == 8 * r + f);
    assert(0 <= k < 64);
    assert(k / 8 == king.rank.seen_by(p.stm) && k % 8 == f);
    sums::lemma_total_one(c.kings, k, 64);
    assert(raised(c.kings, c.after_position(p, score).kings, k));
}

/// Counting a position raises one entry of each other distribution by one: that of the score, of
/// the duck's square, of the number of men, and of the phase, which does not count beyond 24.
pub proof fn law_position_is_counted(c: Census, p: Position, score: i16)
    requires
        c.wf(),
        c.positions < u64::MAX,
        p.squares.len() == 64,
        p.king(p.stm) is Some,
        p.number(None, None) <= 32,
    ensures
        ({
            let n = c.after_position(p, score);
            &&& n.positions == c.positions + 1
            &&& n.games == c.games && n.exits == c.exits && n.outcomes == c.outcomes
            &&& raised(c.scores, n.scores, 32768 + score)
            &&& p.duck is None ==> raised(c.ducks, n.ducks, 64)
            &&& p.duck is Some ==> raised(
                c.ducks,
                n.ducks,
                8 * p.duck->0.rank.at() + p.duck->0.file.at(),
            )
            &&& raised(c.material, n.material, p.number(None, None))
            &&& analyse::phase(p) <= 24 ==> raised(c.phases, n.phases, analyse::phase(p))
            &&& analyse::phase(p) >= 24 ==> raised(c.phases, n.phases, 24)
        }),
{
    let n = c.after_position(p, score);
    board::lemma_tally_bounds(p.squares, None, None, 64);
    board::lemma_tally_bounds(p.squares, None, Some(Piece::Knight), 64);
    board::lemma_tally_bounds(p.squares, None, Some(Piece::Bishop), 64);
    board::lemma_tally_bounds(p.squares, None, Some(Piece::Rook), 64);
    board::lemma_tally_bounds(p.squares, None, Some(Piece::Queen), 64);
    sums::lemma_total_one(c.scores, 32768 + score, 65536);
    let d = header::duck_square(p);
    assert(0 <= d < 65);
    sums::lemma_total_one(c.ducks, d, 65);
    sums::lemma_total_one(c.material, p.number(None, None), 33);
    let f = if analyse::phase(p) < 24 {
        analyse::phase(p)
    } else {
        24
    };
    sums::lemma_total_one(c.phases, f, 25);
}

/// Of the counts for one color and kind, a position raises the one for how many such men there are.
/// White's come first; the kinds are pawn, knight, bishop, rook, queen, king.
pub proof fn law_pieces_are_counted(
    c: Census,
    p: Position,
    score: i16,
    color: Color,
    piece: Piece,
    n: int,
)
    requires
        c.wf(),
        c.positions < u64::MAX,
        p.squares.len() == 64,
        p.number(None, None) <= 32,
        0 <= n < 33,
    ensures
        ({
            let side = match color {
                Color::White => 0int,
                Color::Black => 6,
            };
            let kind = match piece {
                Piece::Pawn => 0int,
                Piece::Knight => 1,
                Piece::Bishop => 2,
                Piece::Rook => 3,
                Piece::Queen => 4,
                Piece::King => 5,
            };
            let k = 33 * (side + kind) + n;
            c.after_position(p, score).pieces[k] == c.pieces[k] + if p.number(
                Some(color),
                Some(piece),
            ) == n {
                1int
            } else {
                0
            }
        }),
{
    let side = match color {
        Color::White => 0int,
        Color::Black => 6,
    };
    let kind = match piece {
        Piece::Pawn => 0int,
        Piece::Knight => 1,
        Piece::Bishop => 2,
        Piece::Rook => 3,
        Piece::Queen => 4,
        Piece::King => 5,
    };
    let b = side + kind;
    let k = 33 * b + n;
    assert(k / 33 == b && k % 33 == n);
    assert(analyse::block_color(b) == color);
    assert(b % 6 == kind);
    assert(analyse::block_piece(b) == piece);
    analyse::lemma_piece_count(c.pieces, c.positions, k);
}

/// A register holds one more than the zeros with which the last 44 binary digits of the numbers
/// begin that belong to it; the first 20 digits name the register.
pub proof fn law_registers_count_zeros(registers: Seq<u8>, hash: u64)
    requires
        registers.len() == 1048576,
    ensures
        ({
            let i = (hash / 0x1000_0000_0000u64) as int;
            let low = (hash % 0x1000_0000_0000u64) as int;
            let w = analyse::worth(hash);
            let after = analyse::registered(registers, hash);
            &&& 1 <= w <= 45
            &&& low < two_to(45 - w)
            &&& low > 0 ==> two_to(44 - w) <= low
            &&& low == 0 ==> w == 45
            &&& after.len() == registers.len()
            &&& after[i] == if registers[i] < w {
                w
            } else {
                registers[i] as int
            }
            &&& forall|j: int| 0 <= j < registers.len() && j != i ==> #[trigger] after[j]
                == registers[j]
        }),
{
    let low = (hash % 0x1000_0000_0000u64) as int;
    assert(low == hash as int % 0x1000_0000_0000);
    lemma_bits_bound(low);
    assert(two_to(44) == 0x1000_0000_0000) by {
        reveal_with_fuel(two_to, 45);
    }
    if analyse::bits(low) > 44 {
        lemma_two_to_grows(44, analyse::bits(low) - 1);
    }
}

/// Two to the power `n`.
pub open spec fn two_to(n: int) -> int
    decreases n,
{
    if n <= 0 {
        1
    } else {
        2 * two_to(n - 1)
    }
}

proof fn lemma_two_to_grows(a: int, b: int)
    requires
        a <= b,
    ensures
        1 <= two_to(a) <= two_to(b),
    decreases b,
{
    if b > 0 {
        if a < b {
            lemma_two_to_grows(a, b - 1);
        } else {
            lemma_two_to_grows(a - 1, b - 1);
        }
    }
}

proof fn lemma_bits_bound(n: int)
    requires
        n >= 0,
    ensures
        n < two_to(analyse::bits(n)),
        n > 0 ==> two_to(analyse::bits(n) - 1) <= n && analyse::bits(n) >= 1,
        n == 0 ==> analyse::bits(n) == 0,
    decreases n,
{
    if n > 0 {
        lemma_bits_bound(n / 2);
    }
}

/// Later plies leave the games, the outcomes and the first scores as they are.
proof fn lemma_plies_keep(c: Census, p: Position, g: Seq<u8>, i: int)
    requires
        i > 0,
    ensures
        ({
            let n = analyse::plies_counted(c, p, g, i).0;
            n.games == c.games && n.outcomes == c.outcomes && n.exits == c.exits
        }),
    decreases games::plies_of(g) - i,
{
    if i < games::plies_of(g) {
        reveal(analyse::ply_counted);
        let (next, fault) = analyse::ply_counted(c, p, g, i);
        assert(next.games == c.games && next.outcomes == c.outcomes && next.exits == c.exits);
        if fault is None {
            lemma_plies_keep(next, p.after(games::move_at(g, i)), g, i + 1);
        }
    }
}

/// A game that is accepted counts once, once for its outcome, and by its first score, from the view
/// of the side that begins.
pub proof fn law_game_is_counted(c: Census, g: Seq<u8>)
    requires
        c.wf(),
        c.games < u64::MAX,
        g.len() >= 37,
        analyse::game_counted(c, g).1 is Ok,
    ensures
        ({
            let n = analyse::game_counted(c, g).0;
            let p = header::unpacked(g.take(32))->Ok_0;
            let first = MoveRecord::of(games::record_at(g, 0))->Ok_0->0.white_score;
            &&& n.games == c.games + 1
            &&& raised(c.outcomes, n.outcomes, g[30] as int)
            &&& games::plies_of(g) == 0 ==> n.exits == c.exits
            &&& games::plies_of(g) > 0 && p.stm == Color::White ==> n.exits == c.exits + first
            &&& games::plies_of(g) > 0 && p.stm == Color::Black ==> n.exits == c.exits - first
        }),
{
    let p = header::unpacked(g.take(32))->Ok_0;
    let begun = Census {
        games: c.games + 1,
        outcomes: analyse::counted(c.outcomes, g[30] as int),
        ..c
    };
    header::law_header_bytes(g.take(32), p);
    assert(g.take(32)[30] == g[30]);
    sums::lemma_total_one(c.outcomes, g[30] as int, 3);
    if games::plies_of(g) > 0 {
        reveal(analyse::ply_counted);
        let (next, fault) = analyse::ply_counted(begun, p, g, 0);
        assert(fault is None);
        lemma_plies_keep(next, p.after(games::move_at(g, 0)), g, 1);
    }
}

/// Counting starts with nothing. Positions are told apart by their hashes, which are kept one by one
/// or, where an estimate is wanted, only in registers.
pub proof fn law_positions_are_told_apart(approximate: bool, c: Census, p: Position, score: i16)
    requires
        c.wf(),
    ensures
        ({
            let s = Census::start(approximate);
            &&& s.games == 0 && s.positions == 0 && s.exits == 0
            &&& s.hashes == Set::<u64>::empty()
            &&& approximate <==> s.registers.len() > 0
            &&& approximate ==> s.registers.len() == 1048576
            &&& forall|i: int| 0 <= i < s.registers.len() ==> #[trigger] s.registers[i] == 0
            &&& forall|i: int| 0 <= i < s.kings.len() ==> #[trigger] s.kings[i] == 0
            &&& forall|i: int| 0 <= i < s.scores.len() ==> #[trigger] s.scores[i] == 0
            &&& forall|i: int| 0 <= i < s.pieces.len() ==> #[trigger] s.pieces[i] == 0
        }),
        ({
            let n = c.after_position(p, score);
            let hash = hashing::position_hash(p);
            &&& c.registers.len() == 0 ==> n.registers.len() == 0 && forall|h: u64|
                #[trigger] n.hashes.contains(h) <==> h == hash || c.hashes.contains(h)
            &&& c.registers.len() > 0 ==> n.hashes == c.hashes && n.registers.len()
                == c.registers.len()
        }),
{
    let hash = hashing::position_hash(p);
    assert(0 <= analyse::register(hash) < 1048576);
}

} // verus!
