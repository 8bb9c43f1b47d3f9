//! Positions for training, in the form of the `bulletformat` crate.
use crate::board::{Board, Position};
use crate::common::{Color, Man, Move, Piece, Square};
use crate::error::{invalid, invalid_text, Error, ErrorKind};
use crate::format::{
    is_terminator, GameOutcome, MoveRecord, GAME_HEADER_SIZE, MAX_PIECES,
    NO_SQUARE, RECORD_SIZE,
};
use crate::games::{header_bytes, record_bytes, replay_move};
use crate::header::unpack_header;
use crate::{board, error, games, header, moves};
use bulletformat::ChessBoard;
use vstd::prelude::*;

verus! {

broadcast use crate::common::group_squares;

/// `bulletformat::ChessBoard`: a struct of plain values, all of them public. It is declared as it
/// is, and nothing else is claimed of it.
#[verifier::external_type_specification]
pub struct ExChessBoard(bulletformat::ChessBoard);

/// Where in `extra` the duck stands.
pub const DUCK_EXTRA_INDEX: usize = 0;

/// Bit `i` of a number.
pub open spec fn wide_bit(n: u64, i: int) -> bool {
    (n >> (i as u64)) & 1u64 == 1u64
}

/// Half a byte: the `k`-th of some bytes, the lower half of each byte first.
pub open spec fn nibble(bytes: Seq<u8>, k: int) -> int {
    if k % 2 == 0 {
        bytes[k / 2] as int % 16
    } else {
        bytes[k / 2] as int / 16
    }
}

/// The number of the square that the side `color` sees as square `i`: Black sees the board upside
/// down.
pub open spec fn turned(color: Color, i: int) -> int {
    match color {
        Color::White => i,
        Color::Black => 8 * (7 - i / 8) + i % 8,
    }
}

/// What stands on the squares as the side to move sees them.
pub open spec fn seen(p: Position) -> Seq<Option<Man>> {
    Seq::new(64, |i: int| p.squares[turned(p.stm, i)])
}

/// The code of a man as the side `stm` sees it: the other side's men have the highest bit.
pub open spec fn relative_code(man: Man, stm: Color) -> int {
    man.piece.number() + if man.color == stm {
        0int
    } else {
        8
    }
}

/// How many of the squares below `n` hold a man.
pub open spec fn seen_below(p: Position, n: int) -> int {
    board::tally(seen(p), None, None, n)
}

/// The negative of a score, or the highest score for the lowest.
pub open spec fn opposed(score: i16) -> int {
    if score == i16::MIN {
        i16::MAX as int
    } else {
        -score
    }
}

/// Whether `b` shows the position `p` with a score and an outcome, all as the side to move sees it.
/// The other side's king is on the square as that side sees it.
pub open spec fn shows(p: Position, white_score: i16, outcome: GameOutcome, b: ChessBoard) -> bool {
    let black = p.stm == Color::Black;
    &&& forall|i: int| 0 <= i < 64 ==> #[trigger] wide_bit(b.occ, i) == (seen(p)[i] is Some)
    &&& forall|i: int|
        0 <= i < 64 && seen(p)[i] is Some ==> nibble(b.pcs@, #[trigger] seen_below(p, i))
            == relative_code(seen(p)[i]->0, p.stm)
    &&& forall|k: int| seen_below(p, 64) <= k < 32 ==> #[trigger] nibble(b.pcs@, k) == 0
    &&& b.score == if black {
        opposed(white_score)
    } else {
        white_score as int
    }
    &&& b.result == if black {
        2 - outcome.number()
    } else {
        outcome.number()
    }
    &&& b.ksq < 64
    &&& seen(p)[b.ksq as int] == Some(Man { color: p.stm, piece: Piece::King })
    &&& b.opp_ksq < 64
    &&& seen(p)[turned(Color::Black, b.opp_ksq as int)] == Some(
        Man { color: p.stm.opposite(), piece: Piece::King },
    )
    &&& b.extra@[0] == match p.duck {
        Some(s) => turned(p.stm, s.at()),
        None => NO_SQUARE as int,
    }
    &&& b.extra@[1] == 0
    &&& b.extra@[2] == 0
}

/// Why a position cannot be shown.
pub open spec fn show_fault(p: Position) -> Option<Seq<char>> {
    if p.number(None, None) > MAX_PIECES || p.number(Some(p.stm), Some(Piece::King)) != 1
        || p.number(Some(p.stm.opposite()), Some(Piece::King)) != 1 {
        Some("expected at most 32 chess pieces and both kings"@)
    } else {
        None
    }
}

proof fn lemma_set_wide_bit(n: u64, i: int, j: int)
    requires
        0 <= i < 64,
        0 <= j < 64,
    ensures
        wide_bit(n | (1u64 << (i as u64)), j) == (i == j || wide_bit(n, j)),
{
    let (x, y) = (i as u64, j as u64);
    assert(((n | (1u64 << x)) >> y) & 1u64 == 1u64 <==> (x == y || (n >> y) & 1u64 == 1u64))
        by (bit_vector)
        requires
            x < 64,
            y < 64,
    ;
}

proof fn lemma_no_wide_bit(i: int)
    requires
        0 <= i < 64,
    ensures
        !wide_bit(0u64, i),
{
    let x = i as u64;
    assert((0u64 >> x) & 1u64 == 0u64) by (bit_vector)
        requires
            x < 64,
    ;
}

proof fn lemma_seen_monotonic(p: Position, a: int, b: int)
    requires
        0 <= a <= b,
    ensures
        0 <= seen_below(p, a) <= seen_below(p, b),
    decreases b,
{
    board::lemma_tally_bounds(seen(p), None, None, a);
    if a < b {
        lemma_seen_monotonic(p, a, b - 1);
    }
}

/// Turning the board twice leaves it as it is.
proof fn lemma_turned(color: Color, i: int)
    requires
        0 <= i < 64,
    ensures
        0 <= turned(color, i) < 64,
        turned(color, turned(color, i)) == i,
{
}

/// The first `f` squares of a rank hold as many men whichever way the board is seen.
proof fn lemma_rank_seen(p: Position, r: int, f: int)
    requires
        p.stm == Color::Black,
        0 <= r < 8,
        0 <= f <= 8,
    ensures
        seen_below(p, 8 * r + f) - seen_below(p, 8 * r) == board::tally(
            p.squares,
            None,
            None,
            56 - 8 * r + f,
        ) - board::tally(p.squares, None, None, 56 - 8 * r),
    decreases f,
{
    if f > 0 {
        lemma_rank_seen(p, r, f - 1);
        let i = 8 * r + f - 1;
        assert(i / 8 == r && i % 8 == f - 1);
        assert(seen(p)[i] == p.squares[56 - 8 * r + f - 1]);
    }
}

/// The squares below `n` hold as many men as White sees there.
proof fn lemma_white_sees(p: Position, n: int)
    requires
        p.stm == Color::White,
        n <= 64,
    ensures
        seen_below(p, n) == board::tally(p.squares, None, None, n),
    decreases n,
{
    if n > 0 {
        lemma_white_sees(p, n - 1);
    }
}

/// As many men are seen as there are.
proof fn lemma_all_seen(p: Position, r: int)
    requires
        0 <= r <= 8,
    ensures
        p.stm == Color::White ==> seen_below(p, 8 * r) == board::tally(
            p.squares,
            None,
            None,
            8 * r,
        ),
        p.stm == Color::Black ==> seen_below(p, 8 * r) == p.number(None, None) - board::tally(
            p.squares,
            None,
            None,
            64 - 8 * r,
        ),
    decreases r,
{
    if r > 0 {
        lemma_all_seen(p, r - 1);
        if p.stm == Color::Black {
            lemma_rank_seen(p, r - 1, 8);
        } else {
            lemma_white_sees(p, 8 * r);
        }
    }
}

/// What of the position `p` has been entered when the squares below `n` are done.
spec fn shown_below(p: Position, occ: u64, pcs: Seq<u8>, n: int) -> bool {
    &&& pcs.len() == 16
    &&& forall|i: int|
        0 <= i < 64 ==> #[trigger] wide_bit(occ, i) == (i < n && seen(p)[i] is Some)
    &&& forall|i: int|
        0 <= i < n && seen(p)[i] is Some ==> nibble(pcs, #[trigger] seen_below(p, i))
            == relative_code(seen(p)[i]->0, p.stm)
    &&& forall|k: int| seen_below(p, n) <= k < 32 ==> #[trigger] nibble(pcs, k) == 0
}

proof fn lemma_shown_step(p: Position, occ: u64, pcs: Seq<u8>, next: Seq<u8>, n: int)
    requires
        0 <= n < 64,
        shown_below(p, occ, pcs, n),
        seen_below(p, 64) <= MAX_PIECES,
        seen(p)[n] is Some,
        ({
            let k = seen_below(p, n);
            let c = relative_code(seen(p)[n]->0, p.stm);
            next == pcs.update(
                k / 2,
                if k % 2 == 0 {
                    c as u8
                } else {
                    (pcs[k / 2] % 16 + 16 * c) as u8
                },
            )
        }),
    ensures
        shown_below(p, occ | (1u64 << (n as u64)), next, n + 1),
{
    let k = seen_below(p, n);
    let after = occ | (1u64 << (n as u64));
    lemma_seen_monotonic(p, 0, n);
    lemma_seen_monotonic(p, n + 1, 64);
    assert(seen_below(p, n + 1) == k + 1);
    assert(nibble(pcs, k) == 0);
    if k % 2 == 0 {
        assert(nibble(pcs, k + 1) == 0);
    }
    assert forall|i: int| 0 <= i < 64 implies #[trigger] wide_bit(after, i) == (i < n + 1 && seen(
        p,
    )[i] is Some) by {
        assert(wide_bit(occ, i) == (i < n && seen(p)[i] is Some));
        lemma_set_wide_bit(occ, n, i);
    }
    assert forall|j: int| 0 <= j < 32 implies #[trigger] nibble(next, j) == if j == k {
        relative_code(seen(p)[n]->0, p.stm)
    } else {
        nibble(pcs, j)
    } by {}
    assert forall|i: int| 0 <= i < n + 1 && seen(p)[i] is Some implies nibble(
        next,
        #[trigger] seen_below(p, i),
    ) == relative_code(seen(p)[i]->0, p.stm) by {
        lemma_seen_monotonic(p, 0, i);
        if i < n {
            lemma_seen_monotonic(p, i + 1, n);
            assert(seen_below(p, i) < seen_below(p, i + 1) <= seen_below(p, n));
        }
    }
}

/// The number of the square that the side `color` sees as square `i`.
fn turn(color: Color, i: usize) -> (r: usize)
    requires
        i < 64,
    ensures
        r == turned(color, i as int),
        r < 64,
{
    match color {
        Color::White => i,
        Color::Black => 8 * (7 - i / 8) + i % 8,
    }
}

/// The men of a position: which squares they occupy, and their codes.
fn show_men(board: &Board) -> (r: (u64, [u8; 16]))
    requires
        board@.number(None, None) <= MAX_PIECES,
    ensures
        shown_below(board@, r.0, r.1@, 64),
{
    let ghost p = board@;
    let mut occ: u64 = 0;
    let mut pcs: [u8; 16] = [0; 16];
    let mut k: usize = 0;
    let mut i: usize = 0;
    proof {
        lemma_all_seen(p, 8);
        assert(board::tally(p.squares, None, None, 0) == 0);
        assert forall|i: int| 0 <= i < 64 implies !#[trigger] wide_bit(0, i) by {
            lemma_no_wide_bit(i);
        }
    }
    while i < 64
        invariant
            p == board@,
            i <= 64,
            k == seen_below(p, i as int),
            seen_below(p, 64) <= MAX_PIECES,
            shown_below(p, occ, pcs@, i as int),
        decreases 64 - i,
    {
        let ghost before = pcs@;
        proof {
            lemma_seen_monotonic(p, i + 1, 64);
            lemma_turned(p.stm, i as int);
        }
        let man = board.squares[turn(board.stm, i)];
        assert(man == seen(p)[i as int]);
        match man {
            Some(m) => {
                let c = m.piece.code() + if m.color == board.stm {
                    0u8
                } else {
                    8
                };
                assert(c == relative_code(m, p.stm));
                let v = if k % 2 == 0 {
                    c
                } else {
                    pcs[k / 2] % 16 + 16 * c
                };
                pcs[k / 2] = v;
                proof {
                    lemma_shown_step(p, occ, before, pcs@, i as int);
                }
                occ = occ | (1u64 << (i as u64));
                k += 1;
            },
            None => {
                assert(seen_below(p, i + 1) == seen_below(p, i as int));
            },
        }
        i += 1;
    }
    (occ, pcs)
}

/// Shows a position with its score and the outcome of the game, as the side to move sees it.
pub fn to_bulletformat(board: &Board, white_score: i16, outcome: GameOutcome) -> (r: Result<
    ChessBoard,
    Error,
>)
    ensures
        match r {
            Ok(b) => show_fault(board@) is None && shows(board@, white_score, outcome, b),
            Err(e) => show_fault(board@) matches Some(m) && e@ == error::bad(m),
        },
{
    let stm = board.stm;
    if board.count(None, None) > MAX_PIECES || board.count(Some(stm), Some(Piece::King)) != 1
        || board.count(Some(stm.other()), Some(Piece::King)) != 1 {
        return Err(invalid("expected at most 32 chess pieces and both kings"));
    }
    proof {
        moves::lemma_king_found(board@.squares, stm, 0);
        moves::lemma_king_found(board@.squares, stm.opposite(), 0);
    }
    let (us, them) = match (board.try_king(stm), board.try_king(stm.other())) {
        (Some(us), Some(them)) => (us, them),
        _ => {
            return Err(invalid("expected at most 32 chess pieces and both kings"));
        },
    };
    proof {
        lemma_turned(stm, us.at());
        lemma_turned(stm, them.at());
        lemma_turned(Color::Black, turned(stm, them.at()));
    }
    let (occ, pcs) = show_men(board);
    let black = stm == Color::Black;
    let score = if black {
        if white_score == i16::MIN {
            i16::MAX
        } else {
            -white_score
        }
    } else {
        white_score
    };
    let result = if black {
        2 - outcome.code()
    } else {
        outcome.code()
    };
    let duck = match board.duck {
        Some(s) => turn(stm, s.position()) as u8,
        None => NO_SQUARE,
    };
    let ksq = turn(stm, us.position()) as u8;
    let opp_ksq = turn(Color::Black, turn(stm, them.position())) as u8;
    Ok(ChessBoard { occ, pcs, score, result, ksq, opp_ksq, extra: [duck, 0, 0] })
}

/// A man of the other color.
pub open spec fn swapped(man: Option<Man>) -> Option<Man> {
    match man {
        Some(m) => Some(Man { color: m.color.opposite(), ..m }),
        None => None,
    }
}

/// The position with the sides exchanged: the board upside down, the men in the other color, and
/// the other side to move.
pub open spec fn mirrored(p: Position) -> Position {
    Position {
        squares: Seq::new(64, |i: int| swapped(p.squares[turned(Color::Black, i)])),
        stm: p.stm.opposite(),
        white_castling: p.black_castling,
        black_castling: p.white_castling,
        duck: match p.duck {
            Some(s) => Some(Square::of(turned(Color::Black, s.at()))),
            None => None,
        },
        ..p
    }
}

/// The outcome with the sides exchanged.
pub open spec fn exchanged(outcome: GameOutcome) -> GameOutcome {
    match outcome {
        GameOutcome::WhiteWin => GameOutcome::BlackWin,
        GameOutcome::Draw => GameOutcome::Draw,
        GameOutcome::BlackWin => GameOutcome::WhiteWin,
    }
}

proof fn lemma_mirrored_count(p: Position, n: int)
    requires
        0 <= n <= 64,
    ensures
        seen_below(mirrored(p), n) == seen_below(p, n),
    decreases n,
{
    if n > 0 {
        lemma_mirrored_count(p, n - 1);
        lemma_mirrored_man(p, n - 1);
    }
}

proof fn lemma_mirrored_man(p: Position, i: int)
    requires
        0 <= i < 64,
    ensures
        seen(mirrored(p))[i] == swapped(seen(p)[i]),
{
    lemma_turned(Color::Black, i);
}

/// The other color, if one is given.
spec fn other(color: Option<Color>) -> Option<Color> {
    match color {
        Some(c) => Some(c.opposite()),
        None => None,
    }
}

/// The first `f` squares of a rank hold as many men as those of its mirror image.
proof fn lemma_mirrored_rank(
    p: Position,
    color: Option<Color>,
    piece: Option<Piece>,
    r: int,
    f: int,
)
    requires
        0 <= r < 8,
        0 <= f <= 8,
    ensures
        ({
            let m = mirrored(p).squares;
            let o = other(color);
            board::tally(m, color, piece, 8 * r + f) - board::tally(m, color, piece, 8 * r)
                == board::tally(p.squares, o, piece, 56 - 8 * r + f) - board::tally(
                p.squares,
                o,
                piece,
                56 - 8 * r,
            )
        }),
    decreases f,
{
    if f > 0 {
        lemma_mirrored_rank(p, color, piece, r, f - 1);
        let i = 8 * r + f - 1;
        assert(i / 8 == r && i % 8 == f - 1);
        let man = p.squares[56 - 8 * r + f - 1];
        assert(mirrored(p).squares[i] == swapped(man));
        assert(board::fits(swapped(man), color, piece) == board::fits(man, other(color), piece));
    }
}

/// A side has as many men as the other side in the mirror image.
proof fn lemma_mirrored_number(p: Position, color: Option<Color>, piece: Option<Piece>, r: int)
    requires
        0 <= r <= 8,
    ensures
        board::tally(mirrored(p).squares, color, piece, 8 * r) == p.number(other(color), piece)
            - board::tally(p.squares, other(color), piece, 64 - 8 * r),
    decreases r,
{
    if r > 0 {
        lemma_mirrored_number(p, color, piece, r - 1);
        lemma_mirrored_rank(p, color, piece, r - 1, 8);
    }
}

proof fn lemma_mirrored_fault(p: Position)
    ensures
        show_fault(mirrored(p)) == show_fault(p),
{
    let king = Some(Piece::King);
    lemma_mirrored_number(p, None, None, 8);
    lemma_mirrored_number(p, Some(p.stm), king, 8);
    lemma_mirrored_number(p, Some(p.stm.opposite()), king, 8);
    assert(board::tally(p.squares, None, None, 0) == 0);
    assert(board::tally(p.squares, Some(p.stm), king, 0) == 0);
    assert(board::tally(p.squares, Some(p.stm.opposite()), king, 0) == 0);
    assert(p.stm.opposite().opposite() == p.stm);
}

/// Numbers with the same bits from `i` on are the same without the bits before.
proof fn lemma_same_bits(a: u64, b: u64, i: int)
    requires
        0 <= i < 64,
        forall|j: int| 0 <= j < 64 ==> #[trigger] wide_bit(a, j) == wide_bit(b, j),
    ensures
        a >> (i as u64) == b >> (i as u64),
    decreases 64 - i,
{
    let x = i as u64;
    assert(wide_bit(a, i) == wide_bit(b, i));
    if i < 63 {
        lemma_same_bits(a, b, i + 1);
        let y = (i + 1) as u64;
        assert(a >> x == b >> x) by (bit_vector)
            requires
                x < 63,
                y == x + 1,
                a >> y == b >> y,
                ((a >> x) & 1u64 == 1u64) == ((b >> x) & 1u64 == 1u64),
        ;
    } else {
        assert(a >> 63u64 == b >> 63u64) by (bit_vector)
            requires
                ((a >> 63u64) & 1u64 == 1u64) == ((b >> 63u64) & 1u64 == 1u64),
        ;
    }
}

/// Two boards that show a position have the same codes.
proof fn lemma_same_nibbles(
    p: Position,
    white_score: i16,
    outcome: GameOutcome,
    a: ChessBoard,
    b: ChessBoard,
    k: int,
    n: int,
)
    requires
        shows(p, white_score, outcome, a),
        shows(p, white_score, outcome, b),
        0 <= n <= 64,
        0 <= k < seen_below(p, n),
    ensures
        nibble(a.pcs@, k) == nibble(b.pcs@, k),
    decreases n,
{
    if k < seen_below(p, n - 1) {
        lemma_same_nibbles(p, white_score, outcome, a, b, k, n - 1);
    } else {
        assert(seen(p)[n - 1] is Some);
        assert(k == seen_below(p, n - 1));
    }
}

/// A position, a score and an outcome are shown by one board.
pub proof fn law_one_board(
    p: Position,
    white_score: i16,
    outcome: GameOutcome,
    a: ChessBoard,
    b: ChessBoard,
)
    requires
        p.squares.len() == 64,
        show_fault(p) is None,
        shows(p, white_score, outcome, a),
        shows(p, white_score, outcome, b),
    ensures
        a == b,
{
    let (x, y) = (a.occ, b.occ);
    assert forall|j: int| 0 <= j < 64 implies #[trigger] wide_bit(x, j) == wide_bit(y, j) by {
        assert(wide_bit(y, j) == (seen(p)[j] is Some));
    }
    lemma_same_bits(x, y, 0);
    assert(x == y) by (bit_vector)
        requires
            x >> 0u64 == y >> 0u64,
    ;
    assert forall|j: int| 0 <= j < 16 implies #[trigger] a.pcs@[j] == b.pcs@[j] by {
        assert forall|k: int| 0 <= k < 32 implies #[trigger] nibble(a.pcs@, k) == nibble(
            b.pcs@,
            k,
        ) by {
            if k < seen_below(p, 64) {
                lemma_same_nibbles(p, white_score, outcome, a, b, k, 64);
            }
        }
        assert(nibble(a.pcs@, 2 * j) == nibble(b.pcs@, 2 * j));
        assert(nibble(a.pcs@, 2 * j + 1) == nibble(b.pcs@, 2 * j + 1));
        assert((2 * j + 1) / 2 == j);
    }
    assert(a.pcs@ =~= b.pcs@);
    assert(a.pcs =~= b.pcs);
    assert(a.extra@ =~= b.extra@);
    assert(a.extra =~= b.extra);
    lemma_same_king(p, p.stm, a.ksq as int, b.ksq as int);
    let (s, t) = (a.opp_ksq as int, b.opp_ksq as int);
    lemma_turned(Color::Black, s);
    lemma_turned(Color::Black, t);
    lemma_same_king(p, p.stm.opposite(), turned(Color::Black, s), turned(Color::Black, t));
}

/// With one king of a color, it is seen on one square.
proof fn lemma_same_king(p: Position, color: Color, i: int, j: int)
    requires
        p.squares.len() == 64,
        p.number(Some(color), Some(Piece::King)) == 1,
        0 <= i < 64,
        0 <= j < 64,
        seen(p)[i] == Some(Man { color, piece: Piece::King }),
        seen(p)[j] == Some(Man { color, piece: Piece::King }),
    ensures
        i == j,
{
    lemma_turned(p.stm, i);
    lemma_turned(p.stm, j);
    moves::lemma_only_king(p.squares, color, turned(p.stm, i), turned(p.stm, j));
}

/// A position is shown as the side to move sees it: with the sides exchanged it can be shown just if
/// it could before, and then the same board shows it.
pub proof fn law_sides_are_alike(
    p: Position,
    white_score: i16,
    outcome: GameOutcome,
    b: ChessBoard,
)
    requires
        white_score != i16::MIN,
        shows(p, white_score, outcome, b),
    ensures
        show_fault(mirrored(p)) == show_fault(p),
        shows(mirrored(p), (-white_score) as i16, exchanged(outcome), b),
{
    let m = mirrored(p);
    lemma_mirrored_fault(p);
    assert forall|i: int| 0 <= i < 64 implies #[trigger] wide_bit(b.occ, i) == (seen(m)[i] is Some) by {
        lemma_mirrored_man(p, i);
    }
    assert forall|i: int| 0 <= i < 64 && seen(m)[i] is Some implies nibble(
        b.pcs@,
        #[trigger] seen_below(m, i),
    ) == relative_code(seen(m)[i]->0, m.stm) by {
        lemma_mirrored_man(p, i);
        lemma_mirrored_count(p, i);
        assert(nibble(b.pcs@, seen_below(p, i)) == relative_code(seen(p)[i]->0, p.stm));
    }
    lemma_mirrored_count(p, 64);
    lemma_mirrored_man(p, b.ksq as int);
    lemma_turned(Color::Black, b.opp_ksq as int);
    lemma_mirrored_man(p, turned(Color::Black, b.opp_ksq as int));
    match p.duck {
        Some(s) => {
            lemma_turned(Color::Black, s.at());
        },
        None => {},
    }
}

/// A walk through a stored game.
pub struct Walk {
    pub board: Board,
    pub outcome: GameOutcome,
    /// How many records are behind.
    pub index: usize,
}

/// Where a walk through the game `g` starts.
pub open spec fn walk_start(g: Seq<u8>) -> Result<
    (Position, GameOutcome),
    (ErrorKind, Seq<char>),
> {
    if g.len() < GAME_HEADER_SIZE + RECORD_SIZE || !games::terminated(g) {
        Err(error::bad("incomplete Wakformat game"@))
    } else {
        match header::unpacked(g.take(32)) {
            Err(e) => Err(e),
            Ok(p) => match crate::format::outcome_of(g[30]) {
                Ok(outcome) => Ok((p, outcome)),
                Err(e) => Err(error::bad(e.text())),
            },
        }
    }
}

/// What record `i` of the game `g` is, `None` behind the last.
pub open spec fn walk_record(g: Seq<u8>, i: int) -> Result<
    Option<MoveRecord>,
    (ErrorKind, Seq<char>),
> {
    if i >= games::plies_of(g) {
        Ok(None)
    } else {
        match MoveRecord::of(games::record_at(g, i)) {
            Err(e) => Err(error::bad(e.text())),
            Ok(None) => Err(error::bad("unexpected Wakformat game terminator"@)),
            Ok(Some(record)) => Ok(Some(record)),
        }
    }
}

/// Why a step over a record fails, when the position is to be shown or not.
pub open spec fn walk_fault(p: Position, record: MoveRecord, chosen: bool) -> Option<Seq<char>> {
    if chosen && show_fault(p) is Some {
        show_fault(p)
    } else {
        games::replay_fault(p, record.mv)
    }
}

impl Walk {
    /// Starts a walk through a stored game.
    pub fn start(game: &[u8]) -> (r: Result<Walk, Error>)
        ensures
            match (r, walk_start(game@)) {
                (Ok(w), Ok((p, outcome))) => w.board@ == p && w.outcome == outcome && w.index == 0,
                (Err(e), Err(f)) => e@ == f,
                _ => false,
            },
    {
        let n = game.len();
        if n < GAME_HEADER_SIZE + RECORD_SIZE || (n - GAME_HEADER_SIZE) % RECORD_SIZE != 0
            || !is_terminator(game, n - RECORD_SIZE) {
            return Err(invalid("incomplete Wakformat game"));
        }
        let h = header_bytes(game);
        let board = match unpack_header(&h) {
            Ok(board) => board,
            Err(e) => {
                return Err(e);
            },
        };
        match GameOutcome::try_from(game[30]) {
            Ok(outcome) => Ok(Walk { board, outcome, index: 0 }),
            Err(e) => Err(invalid_text(e.message())),
        }
    }

    /// The next record, `None` behind the last.
    pub fn record(&self, game: &[u8]) -> (r: Result<Option<MoveRecord>, Error>)
        requires
            game@.len() >= GAME_HEADER_SIZE + RECORD_SIZE,
        ensures
            error::agrees(r, walk_record(game@, self.index as int)),
    {
        let plies = (game.len() - GAME_HEADER_SIZE - RECORD_SIZE) / RECORD_SIZE;
        if self.index >= plies {
            return Ok(None);
        }
        match MoveRecord::from_bytes(record_bytes(game, self.index)) {
            Err(e) => Err(invalid_text(e.message())),
            Ok(None) => Err(invalid("unexpected Wakformat game terminator")),
            Ok(Some(record)) => Ok(Some(record)),
        }
    }

    /// Goes over a record. If `chosen`, the position before it is shown.
    pub fn step(&mut self, record: MoveRecord, chosen: bool) -> (r: Result<
        Option<ChessBoard>,
        Error,
    >)
        requires
            old(self).index < usize::MAX,
        ensures
            match (r, walk_fault(old(self).board@, record, chosen)) {
                (Ok(b), None) => {
                    &&& final(self).board@ == old(self).board@.after(record.mv)
                    &&& final(self).index == old(self).index + 1
                    &&& final(self).outcome == old(self).outcome
                    &&& b is Some == chosen
                    &&& b matches Some(b) ==> shows(
                        old(self).board@,
                        record.white_score,
                        old(self).outcome,
                        b,
                    )
                },
                (Err(e), Some(m)) => e@ == error::bad(m) && final(self).board@ == old(self).board@
                    && final(self).index == old(self).index && final(self).outcome == old(
                    self,
                ).outcome,
                _ => false,
            },
    {
        let shown = if chosen {
            match to_bulletformat(&self.board, record.white_score, self.outcome) {
                Ok(b) => Some(b),
                Err(e) => {
                    return Err(e);
                },
            }
        } else {
            None
        };
        match replay_move(&mut self.board, record.mv) {
            Ok(()) => {},
            Err(e) => {
                return Err(e);
            },
        }
        self.index = self.index + 1;
        Ok(shown)
    }
}

/// A position that is to be shown.
pub struct Sample {
    pub position: Position,
    pub white_score: i16,
    pub outcome: GameOutcome,
}

/// The position before record `i` of the game `g` that starts in the position `p`.
pub open spec fn walk_position(g: Seq<u8>, p: Position, i: int) -> Position
    decreases i,
{
    if i <= 0 {
        p
    } else {
        walk_position(g, p, i - 1).after(games::move_at(g, i - 1))
    }
}

/// What a walk through the game `g` shows from record `i` on, in the position `p` and behind the
/// samples `done`, when `picks` says which positions are chosen.
pub open spec fn walked(
    g: Seq<u8>,
    p: Position,
    outcome: GameOutcome,
    i: int,
    picks: Seq<bool>,
    done: Seq<Sample>,
) -> (Seq<Sample>, Result<(), (ErrorKind, Seq<char>)>)
    decreases games::plies_of(g) - i,
{
    if i >= games::plies_of(g) {
        (done, Ok(()))
    } else {
        match walk_record(g, i) {
            Err(e) => (done, Err(e)),
            Ok(None) => (done, Ok(())),
            Ok(Some(record)) => match walk_fault(p, record, picks[i]) {
                Some(m) => (done, Err(error::bad(m))),
                None => walked(
                    g,
                    p.after(record.mv),
                    outcome,
                    i + 1,
                    picks,
                    if picks[i] {
                        done.push(
                            Sample { position: p, white_score: record.white_score, outcome },
                        )
                    } else {
                        done
                    },
                ),
            },
        }
    }
}

/// The record at which a walk through the game `g` from record `i` on stops, in the position `p`:
/// the first over which it cannot go, or the one behind the last.
pub open spec fn walk_stop(g: Seq<u8>, p: Position, i: int, picks: Seq<bool>) -> int
    decreases games::plies_of(g) - i,
{
    if i >= games::plies_of(g) {
        i
    } else {
        match walk_record(g, i) {
            Ok(Some(record)) => if walk_fault(p, record, picks[i]) is None {
                walk_stop(g, p.after(record.mv), i + 1, picks)
            } else {
                i
            },
            _ => i,
        }
    }
}

/// The positions before the first `n` records of the game `g` that are chosen.
pub open spec fn picked(
    g: Seq<u8>,
    p: Position,
    outcome: GameOutcome,
    picks: Seq<bool>,
    n: int,
) -> Seq<Sample>
    decreases n,
{
    if n <= 0 {
        seq![]
    } else {
        let before = picked(g, p, outcome, picks, n - 1);
        if picks[n - 1] {
            before.push(
                Sample {
                    position: walk_position(g, p, n - 1),
                    white_score: MoveRecord::of(games::record_at(g, n - 1))->Ok_0->0.white_score,
                    outcome,
                },
            )
        } else {
            before
        }
    }
}

/// A walk shows the positions that are chosen before the record at which it stops, and no others.
/// It fails just if it stops at a record of the game: one that is none, that cannot be shown though
/// it is chosen, or whose move cannot be replayed.
pub proof fn law_walk_shows_what_is_picked(
    g: Seq<u8>,
    p: Position,
    outcome: GameOutcome,
    picks: Seq<bool>,
)
    requires
        games::plies_of(g) >= 0,
    ensures
        ({
            let (samples, r) = walked(g, p, outcome, 0, picks, seq![]);
            let k = walk_stop(g, p, 0, picks);
            &&& 0 <= k <= games::plies_of(g)
            &&& samples == picked(g, p, outcome, picks, k)
            &&& r is Ok <==> k == games::plies_of(g)
            &&& r is Err ==> match walk_record(g, k) {
                Ok(Some(record)) => walk_fault(walk_position(g, p, k), record, picks[k]) is Some,
                Ok(None) => false,
                Err(e) => r == Err::<(), (ErrorKind, Seq<char>)>(e),
            }
        }),
{
    lemma_walk_from(g, p, outcome, 0, picks);
}

proof fn lemma_walk_from(
    g: Seq<u8>,
    first: Position,
    outcome: GameOutcome,
    i: int,
    picks: Seq<bool>,
)
    requires
        0 <= i <= games::plies_of(g),
    ensures
        ({
            let p = walk_position(g, first, i);
            let done = picked(g, first, outcome, picks, i);
            let (samples, r) = walked(g, p, outcome, i, picks, done);
            let k = walk_stop(g, p, i, picks);
            &&& i <= k <= games::plies_of(g)
            &&& samples == picked(g, first, outcome, picks, k)
            &&& r is Ok <==> k == games::plies_of(g)
            &&& r is Err ==> match walk_record(g, k) {
                Ok(Some(record)) => walk_fault(
                    walk_position(g, first, k),
                    record,
                    picks[k],
                ) is Some,
                Ok(None) => false,
                Err(e) => r == Err::<(), (ErrorKind, Seq<char>)>(e),
            }
        }),
    decreases games::plies_of(g) - i,
{
    if i < games::plies_of(g) {
        let p = walk_position(g, first, i);
        if walk_record(g, i) matches Ok(Some(_)) {
            let record = walk_record(g, i)->Ok_0->0;
            if walk_fault(p, record, picks[i]) is None {
                assert(games::move_at(g, i) == record.mv) by {
                    reveal(games::move_at);
                }
                assert(walk_position(g, first, i + 1) == p.after(record.mv));
                lemma_walk_from(g, first, outcome, i + 1, picks);
            }
        }
    }
}

/// Whether `filter` may answer `pick` for record `i` of the game `g` that starts in the position
/// `p`.
pub open spec fn answered<F: Fn(&Board, Move, i16, GameOutcome) -> bool>(
    filter: F,
    g: Seq<u8>,
    p: Position,
    outcome: GameOutcome,
    i: int,
    pick: bool,
) -> bool {
    exists|b: Board|
        #![trigger b@]
        b@ == walk_position(g, p, i) && (MoveRecord::of(games::record_at(g, i)) matches Ok(
            Some(record),
        ) && filter.ensures((&b, record.mv, record.white_score, outcome), pick))
}

/// Whether `boards` show `samples`, one after the other.
pub open spec fn show_all(boards: Seq<ChessBoard>, samples: Seq<Sample>) -> bool {
    &&& boards.len() == samples.len()
    &&& forall|i: int|
        0 <= i < samples.len() ==> {
            let s = #[trigger] samples[i];
            shows(s.position, s.white_score, s.outcome, boards[i])
        }
}

/// Whether `boards` and `r` are what comes of a walk through the game `g` when `filter` answers
/// `picks`. The answers are those for the records up to the one at which the walk stops, and
/// further ones would change nothing.
pub open spec fn splatted<F: Fn(&Board, Move, i16, GameOutcome) -> bool>(
    filter: F,
    g: Seq<u8>,
    p: Position,
    outcome: GameOutcome,
    picks: Seq<bool>,
    boards: Seq<ChessBoard>,
    r: Result<(), Error>,
) -> bool {
    let (samples, s) = walked(g, p, outcome, 0, picks, seq![]);
    &&& forall|i: int|
        0 <= i < picks.len() ==> answered(filter, g, p, outcome, i, #[trigger] picks[i])
    &&& r is Ok ==> picks.len() == games::plies_of(g)
    &&& walk_stop(g, p, 0, picks) <= picks.len() <= walk_stop(g, p, 0, picks) + 1
    &&& forall|more: Seq<bool>|
        #[trigger] walked(g, p, outcome, 0, picks + more, seq![]) == (samples, s)
    &&& show_all(boards, samples)
    &&& error::agrees(r, s)
}

/// Shows the positions of a stored game that `filter` chooses, in their order. The filter is asked
/// once for each record, with the position before it. If the game cannot be gone through, what
/// comes before the fault is shown.
pub fn splat_to_bulletformat<F: Fn(&Board, Move, i16, GameOutcome) -> bool>(
    game: &[u8],
    filter: F,
    shown: &mut Vec<ChessBoard>,
) -> (r: Result<(), Error>)
    requires
        forall|b: &Board, mv: Move, score: i16, outcome: GameOutcome|
            #[trigger] filter.requires((b, mv, score, outcome)),
    ensures
        match walk_start(game@) {
            Err(e) => r matches Err(f) && f@ == e && final(shown)@ == old(shown)@,
            Ok((p, outcome)) => exists|picks: Seq<bool>, boards: Seq<ChessBoard>| #[trigger]
                splatted(filter, game@, p, outcome, picks, boards, r) && final(shown)@ == old(
                    shown,
                )@ + boards,
        },
{
    let mut walk = match Walk::start(game) {
        Ok(walk) => walk,
        Err(e) => {
            return Err(e);
        },
    };
    let ghost p = walk.board@;
    let ghost outcome = walk.outcome;
    let ghost mut picks: Seq<bool> = seq![];
    let ghost mut samples: Seq<Sample> = seq![];
    let ghost mut boards: Seq<ChessBoard> = seq![];
    let n = (game.len() - GAME_HEADER_SIZE - RECORD_SIZE) / RECORD_SIZE;
    assert(shown@ =~= old(shown)@ + boards);
    while walk.index < n
        invariant
            game@.len() >= 37,
            n == games::plies_of(game@),
            walk.index <= n,
            walk.outcome == outcome,
            walk.board@ == walk_position(game@, p, walk.index as int),
            picks.len() == walk.index,
            forall|b: &Board, mv: Move, score: i16, o: GameOutcome|
                #[trigger] filter.requires((b, mv, score, o)),
            forall|i: int|
                0 <= i < picks.len() ==> answered(filter, game@, p, outcome, i, #[trigger] picks[i]),
            forall|more: Seq<bool>|
                #[trigger] walked(game@, p, outcome, 0, picks + more, seq![]) == walked(
                    game@,
                    walk.board@,
                    outcome,
                    walk.index as int,
                    picks + more,
                    samples,
                ),
            forall|more: Seq<bool>|
                #[trigger] walk_stop(game@, p, 0, picks + more) == walk_stop(
                    game@,
                    walk.board@,
                    walk.index as int,
                    picks + more,
                ),
            show_all(boards, samples),
            shown@ == old(shown)@ + boards,
            walk_start(game@) == Ok::<(Position, GameOutcome), (ErrorKind, Seq<char>)>(
                (p, outcome),
            ),
        decreases n - walk.index,
    {
        let ghost i = walk.index as int;
        let ghost q = walk.board@;
        let record = match walk.record(game) {
            Ok(Some(record)) => record,
            Ok(None) => {
                return Ok(());
            },
            Err(e) => {
                proof {
                    let none: Seq<bool> = seq![];
                    assert(picks + none =~= picks);
                    assert(walked(game@, p, outcome, 0, picks + none, seq![]).0 == samples);
                    assert(walk_stop(game@, p, 0, picks + none) == i);
                    assert(splatted(filter, game@, p, outcome, picks, boards, Err(e)));
                }
                return Err(e);
            },
        };
        let chosen = filter(&walk.board, record.mv, record.white_score, walk.outcome);
        let ghost before = picks;
        let ghost old_samples = samples;
        proof {
            assert(answered(filter, game@, p, outcome, i, chosen)) by {
                assert(walk.board@ == walk_position(game@, p, i));
            }
            picks = before.push(chosen);
        }
        match walk.step(record, chosen) {
            Ok(b) => {
                match b {
                    Some(b) => {
                        shown.push(b);
                        proof {
                            samples =
                            samples.push(
                                Sample { position: q, white_score: record.white_score, outcome },
                            );
                            assert(old(shown)@ + boards.push(b) =~= (old(shown)@ + boards).push(b));
                            boards = boards.push(b);
                        }
                    },
                    None => {},
                }
                proof {
                    reveal(games::move_at);
                    assert forall|more: Seq<bool>|
                        #[trigger] walked(game@, p, outcome, 0, picks + more, seq![]) == walked(
                            game@,
                            walk.board@,
                            outcome,
                            walk.index as int,
                            picks + more,
                            samples,
                        ) by {
                        let rest = seq![chosen] + more;
                        assert(before + rest =~= picks + more);
                        assert((picks + more)[i] == chosen);
                        assert(walked(game@, p, outcome, 0, before + rest, seq![]) == walked(
                            game@,
                            q,
                            outcome,
                            i,
                            before + rest,
                            old_samples,
                        ));
                    }
                    assert forall|more: Seq<bool>|
                        #[trigger] walk_stop(game@, p, 0, picks + more) == walk_stop(
                            game@,
                            walk.board@,
                            walk.index as int,
                            picks + more,
                        ) by {
                        let rest = seq![chosen] + more;
                        assert(before + rest =~= picks + more);
                        assert((picks + more)[i] == chosen);
                        assert(walk_stop(game@, p, 0, before + rest) == walk_stop(
                            game@,
                            q,
                            i,
                            before + rest,
                        ));
                    }
                }
            },
            Err(e) => {
                proof {
                    let rest = seq![chosen];
                    assert(before + rest =~= picks);
                    assert(picks[i] == chosen);
                    assert(walked(game@, p, outcome, 0, before + rest, seq![]) == walked(
                        game@,
                        q,
                        outcome,
                        i,
                        before + rest,
                        samples,
                    ));
                    assert(walk_stop(game@, p, 0, before + rest) == i);
                    assert forall|more: Seq<bool>|
                        #[trigger] walked(game@, p, outcome, 0, picks + more, seq![]) == walked(
                            game@,
                            p,
                            outcome,
                            0,
                            picks,
                            seq![],
                        ) by {
                        let tail = seq![chosen] + more;
                        assert(before + tail =~= picks + more);
                        assert((picks + more)[i] == chosen);
                        assert(walked(game@, p, outcome, 0, before + tail, seq![]) == walked(
                            game@,
                            q,
                            outcome,
                            i,
                            before + tail,
                            samples,
                        ));
                    }
                    assert(splatted(filter, game@, p, outcome, picks, boards, Err(e)));
                }
                return Err(e);
            },
        }
    }
    proof {
        let none: Seq<bool> = seq![];
        assert(picks + none =~= picks);
        assert(walked(game@, p, outcome, 0, picks + none, seq![]).0 == samples);
        assert(walk_stop(game@, p, 0, picks + none) == n);
        assert(splatted(filter, game@, p, outcome, picks, boards, Ok(())));
    }
    Ok(())
}

} // verus!
