//! The header of a game: its first position and its outcome in 32 bytes.
use vstd::prelude::*;

use crate::board::{Board, CastlingRights, Position};
use crate::common::{Color, File, Man, Piece, Rank, Square};
use crate::error::{invalid, Error, ErrorKind};
use crate::fen::with_right;
use crate::format::{GameHeaderBytes, GameOutcome, MAX_PIECES, NO_SQUARE};
use crate::{board, common, error, fen};

verus! {

broadcast use crate::common::group_squares;

/// Whether bit `k` of `b` is set.
pub open spec fn bit(b: u8, k: int) -> bool {
    (b >> (k as u8)) & 1u8 == 1u8
}

/// Whether a man stands on the square with number `i`: one byte for each rank, one bit for each
/// file.
pub open spec fn occupied(h: Seq<u8>, i: int) -> bool {
    bit(h[i / 8], i % 8)
}

/// How many of the squares below `n` hold a man.
pub open spec fn occupied_below(h: Seq<u8>, n: int) -> int
    decreases n,
{
    if n <= 0 {
        0
    } else {
        occupied_below(h, n - 1) + if occupied(h, n - 1) {
            1int
        } else {
            0
        }
    }
}

/// The code of the man with number `k`, counted over the squares that hold one. Two codes share a
/// byte, the first in the low half.
pub open spec fn code(h: Seq<u8>, k: int) -> int {
    if k % 2 == 0 {
        (h[8 + k / 2] % 16) as int
    } else {
        (h[8 + k / 2] / 16) as int
    }
}

/// How many of the codes below `n` are `c`.
pub open spec fn code_tally(h: Seq<u8>, c: int, n: int) -> int
    decreases n,
{
    if n <= 0 {
        0
    } else {
        code_tally(h, c, n - 1) + if code(h, n - 1) == c {
            1int
        } else {
            0
        }
    }
}

/// The number of the turn.
pub open spec fn turn(h: Seq<u8>) -> int {
    h[26] + 256 * h[27]
}

/// Whether the fields have values that stand for something.
pub open spec fn sane(h: Seq<u8>) -> bool {
    &&& 0 < occupied_below(h, 64) <= MAX_PIECES
    &&& h[31] <= NO_SQUARE
    &&& h[24] % 128 <= NO_SQUARE
    &&& h[30] <= 2
    &&& turn(h) != 0
    &&& h[28] == 0
    &&& h[29] == 0
}

/// Whether every man has a code, and nothing else has one.
pub open spec fn coded(h: Seq<u8>) -> bool {
    forall|k: int|
        0 <= k < MAX_PIECES ==> if k < occupied_below(h, 64) {
            #[trigger] code(h, k) % 8 != 7
        } else {
            code(h, k) == 0
        }
}

/// What is wrong with the header of a game.
pub open spec fn header_fault(h: Seq<u8>) -> Option<Seq<char>> {
    let count = occupied_below(h, 64);
    if !sane(h) {
        Some("invalid Wakformat game header"@)
    } else if h[31] < NO_SQUARE && occupied(h, h[31] as int) {
        Some("duck overlaps a chess piece"@)
    } else if !coded(h) {
        Some("invalid packed piece"@)
    } else if code_tally(h, 5, count) != 1 || code_tally(h, 13, count) != 1 {
        Some("initial position must contain both kings"@)
    } else {
        None
    }
}

/// What `Result` a fault makes.
pub open spec fn checked<T>(fault: Option<Seq<char>>, value: T) -> Result<
    T,
    (ErrorKind, Seq<char>),
> {
    match fault {
        Some(m) => Err(error::bad(m)),
        None => Ok(value),
    }
}

fn is_occupied(h: &GameHeaderBytes, i: usize) -> (r: bool)
    requires
        i < 64,
    ensures
        r == occupied(h@, i as int),
{
    (h[i / 8] >> ((i % 8) as u8)) & 1 == 1
}

fn read_code(h: &GameHeaderBytes, k: usize) -> (r: u8)
    requires
        k < 32,
    ensures
        r == code(h@, k as int),
        r < 16,
{
    if k % 2 == 0 {
        h[8 + k / 2] % 16
    } else {
        h[8 + k / 2] / 16
    }
}

/// Checks the header of a game.
pub fn validate_game_header(bytes: &GameHeaderBytes) -> (r: Result<(), Error>)
    ensures
        error::agrees(r, checked(header_fault(bytes@), ())),
{
    let mut count: usize = 0;
    let mut i: usize = 0;
    while i < 64
        invariant
            i <= 64,
            count == occupied_below(bytes@, i as int),
            count <= i,
        decreases 64 - i,
    {
        if is_occupied(bytes, i) {
            count += 1;
        }
        i += 1;
    }
    let number = bytes[26] as u32 + 256 * (bytes[27] as u32);
    if count == 0 || count > MAX_PIECES || bytes[31] > NO_SQUARE || bytes[24] % 128 > NO_SQUARE
        || bytes[30] > 2 || number == 0 || bytes[28] != 0 || bytes[29] != 0 {
        return Err(invalid("invalid Wakformat game header"));
    }
    if bytes[31] < NO_SQUARE && is_occupied(bytes, bytes[31] as usize) {
        return Err(invalid("duck overlaps a chess piece"));
    }
    let mut white: usize = 0;
    let mut black: usize = 0;
    let mut k: usize = 0;
    while k < MAX_PIECES
        invariant
            k <= MAX_PIECES,
            sane(bytes@),
            !(bytes@[31] < NO_SQUARE && occupied(bytes@, bytes@[31] as int)),
            count == occupied_below(bytes@, 64),
            count <= MAX_PIECES,
            white == code_tally(bytes@, 5, if k < count { k as int } else { count as int }),
            black == code_tally(bytes@, 13, if k < count { k as int } else { count as int }),
            white <= k,
            black <= k,
            forall|j: int|
                0 <= j < k ==> if j < count {
                    #[trigger] code(bytes@, j) % 8 != 7
                } else {
                    code(bytes@, j) == 0
                },
        decreases MAX_PIECES - k,
    {
        let c = read_code(bytes, k);
        if (k >= count && c != 0) || (k < count && c % 8 == 7) {
            return Err(invalid("invalid packed piece"));
        }
        if k < count {
            if c == 5 {
                white += 1;
            }
            if c == 13 {
                black += 1;
            }
        }
        k += 1;
    }
    if white != 1 || black != 1 {
        return Err(invalid("initial position must contain both kings"));
    }
    Ok(())
}

/// The number of the square behind the pawn that may be taken in passing, or the mark for none.
pub open spec fn passing_square(p: Position) -> int {
    match p.en_passant {
        Some(file) => 8 * common::relative(5, p.stm) + file.at(),
        None => NO_SQUARE as int,
    }
}

/// The number of the duck's square, or the mark for none.
pub open spec fn duck_square(p: Position) -> int {
    match p.duck {
        Some(s) => s.at(),
        None => NO_SQUARE as int,
    }
}

/// Whether the man on the square with number `i` is a rook that may castle.
pub open spec fn castling_rook(p: Position, i: int) -> bool {
    match p.squares[i] {
        Some(m) => {
            &&& m.piece == Piece::Rook
            &&& common::relative(i / 8, m.color) == 0
            &&& p.rights(m.color).has(File::of(i % 8))
        },
        None => false,
    }
}

/// The code of the man on the square with number `i`.
pub open spec fn man_code(p: Position, i: int) -> int {
    let m = p.squares[i]->0;
    8 * m.color.number() + if castling_rook(p, i) {
        6
    } else {
        m.piece.number()
    }
}

/// How many men stand on the squares below `n`.
pub open spec fn men_below(p: Position, n: int) -> int {
    board::tally(p.squares, None, None, n)
}

/// Whether `h` holds the position `p` and the outcome `outcome`.
pub open spec fn packs(p: Position, outcome: GameOutcome, h: Seq<u8>) -> bool {
    &&& h.len() == 32
    &&& forall|i: int| 0 <= i < 64 ==> #[trigger] occupied(h, i) == (p.squares[i] is Some)
    &&& forall|i: int|
        0 <= i < 64 && p.squares[i] is Some ==> code(h, #[trigger] men_below(p, i)) == man_code(
            p,
            i,
        )
    &&& forall|k: int| men_below(p, 64) <= k < 32 ==> #[trigger] code(h, k) == 0
    &&& h[24] == 128 * p.stm.number() + passing_square(p)
    &&& h[25] == p.hmc
    &&& turn(h) == p.fmc
    &&& h[28] == 0
    &&& h[29] == 0
    &&& h[30] == outcome.number()
    &&& h[31] == duck_square(p)
}

/// Why a position cannot be the first of a game.
pub open spec fn pack_fault(p: Position) -> Option<Seq<char>> {
    if p.number(None, None) > MAX_PIECES {
        Some("more than 32 chess pieces"@)
    } else if p.number(None, None) == 0 || p.fmc == 0 {
        Some("invalid Wakformat game header"@)
    } else if p.duck matches Some(s) && p.on(s) is Some {
        Some("duck overlaps a chess piece"@)
    } else if p.number(Some(Color::White), Some(Piece::King)) != 1 || p.number(
        Some(Color::Black),
        Some(Piece::King),
    ) != 1 {
        Some("initial position must contain both kings"@)
    } else {
        None
    }
}

proof fn lemma_men_monotonic(p: Position, a: int, b: int)
    requires
        0 <= a <= b,
    ensures
        0 <= men_below(p, a) <= men_below(p, b),
        men_below(p, b) - men_below(p, a) <= b - a,
    decreases b,
{
    board::lemma_tally_bounds(p.squares, None, None, a);
    if a < b {
        lemma_men_monotonic(p, a, b - 1);
    }
}

proof fn lemma_occupied_men(p: Position, h: Seq<u8>, n: int)
    requires
        0 <= n <= 64,
        forall|i: int| 0 <= i < 64 ==> #[trigger] occupied(h, i) == (p.squares[i] is Some),
    ensures
        occupied_below(h, n) == men_below(p, n),
    decreases n,
{
    if n > 0 {
        lemma_occupied_men(p, h, n - 1);
        assert(occupied(h, n - 1) == (p.squares[n - 1] is Some));
    }
}

/// The codes of one kind are as many as the men that have this code.
proof fn lemma_king_codes(p: Position, outcome: GameOutcome, h: Seq<u8>, color: Color, n: int)
    requires
        0 <= n <= 64,
        packs(p, outcome, h),
    ensures
        code_tally(h, 5 + 8 * color.number(), men_below(p, n)) == board::tally(
            p.squares,
            Some(color),
            Some(Piece::King),
            n,
        ),
    decreases n,
{
    if n > 0 {
        lemma_king_codes(p, outcome, h, color, n - 1);
        board::lemma_tally_bounds(p.squares, None, None, n - 1);
        if p.squares[n - 1] is Some {
            assert(code(h, men_below(p, n - 1)) == man_code(p, n - 1));
            assert(men_below(p, n) == men_below(p, n - 1) + 1);
        }
    }
}

/// Every code below the number of men belongs to a man.
proof fn lemma_code_of_man(p: Position, outcome: GameOutcome, h: Seq<u8>, k: int, n: int)
    requires
        0 <= n <= 64,
        packs(p, outcome, h),
        0 <= k < men_below(p, n),
    ensures
        code(h, k) % 8 != 7,
    decreases n,
{
    if k < men_below(p, n - 1) {
        lemma_code_of_man(p, outcome, h, k, n - 1);
    } else {
        assert(code(h, men_below(p, n - 1)) == man_code(p, n - 1));
    }
}

/// A header that holds a position is faulty just if the position cannot be the first of a game.
pub proof fn lemma_pack_fault(p: Position, outcome: GameOutcome, h: Seq<u8>)
    requires
        packs(p, outcome, h),
        p.number(None, None) <= MAX_PIECES,
    ensures
        header_fault(h) == pack_fault(p),
{
    lemma_occupied_men(p, h, 64);
    lemma_king_codes(p, outcome, h, Color::White, 64);
    lemma_king_codes(p, outcome, h, Color::Black, 64);
    board::lemma_tally_bounds(p.squares, None, None, 64);
    assert(occupied_below(h, 64) == p.number(None, None));
    assert(coded(h)) by {
        assert forall|k: int| 0 <= k < MAX_PIECES implies if k < occupied_below(h, 64) {
            #[trigger] code(h, k) % 8 != 7
        } else {
            code(h, k) == 0
        } by {
            if k < men_below(p, 64) {
                lemma_code_of_man(p, outcome, h, k, 64);
            }
        }
    }
    assert(0 <= passing_square(p) <= 64);
    assert(h[24] % 128 == passing_square(p));
    assert(outcome.number() <= 2);
    assert(duck_square(p) <= 64);
    assert(sane(h) == (p.number(None, None) != 0 && p.fmc != 0));
    assert(code_tally(h, 5, occupied_below(h, 64)) == p.number(
        Some(Color::White),
        Some(Piece::King),
    ));
    assert(code_tally(h, 13, occupied_below(h, 64)) == p.number(
        Some(Color::Black),
        Some(Piece::King),
    ));
    match p.duck {
        Some(s) => {
            common::lemma_square_number(s);
            assert(h[31] as int == s.at());
            assert(p.on(s) == p.squares[s.at()]);
            assert(occupied(h, s.at()) == (p.squares[s.at()] is Some));
        },
        None => {},
    }
}

/// Setting a bit sets that bit and no other.
proof fn lemma_set_bit(b: u8, k: int, j: int)
    requires
        0 <= k < 8,
        0 <= j < 8,
    ensures
        bit(b | (1u8 << (k as u8)), j) == (j == k || bit(b, j)),
{
    let (x, y) = (k as u8, j as u8);
    assert(((b | (1u8 << x)) >> y) & 1u8 == 1u8 <==> (x == y || (b >> y) & 1u8 == 1u8))
        by (bit_vector)
        requires
            x < 8,
            y < 8,
    ;
}

proof fn lemma_no_bit(k: int)
    requires
        0 <= k < 8,
    ensures
        !bit(0u8, k),
{
    let x = k as u8;
    assert((0u8 >> x) & 1u8 == 0u8) by (bit_vector)
        requires
            x < 8,
    ;
}

/// What of the position `p` the header `h` holds when the squares below `n` are done.
spec fn packed_below(p: Position, h: Seq<u8>, n: int) -> bool {
    &&& h.len() == 32
    &&& forall|i: int| 0 <= i < 64 ==> #[trigger] occupied(h, i) == (i < n && p.squares[i] is Some)
    &&& forall|i: int|
        0 <= i < n && p.squares[i] is Some ==> code(h, #[trigger] men_below(p, i)) == man_code(p, i)
    &&& forall|k: int| men_below(p, n) <= k < 32 ==> #[trigger] code(h, k) == 0
    &&& forall|j: int| 24 <= j < 32 ==> #[trigger] h[j] == 0
}

proof fn lemma_pack_step(p: Position, h: Seq<u8>, next: Seq<u8>, n: int)
    requires
        0 <= n < 64,
        packed_below(p, h, n),
        p.number(None, None) <= MAX_PIECES,
        p.squares[n] is Some,
        ({
            let k = men_below(p, n);
            let c = man_code(p, n) as u8;
            let half = h.update(n / 8, h[n / 8] | (1u8 << ((n % 8) as u8)));
            next == half.update(
                8 + k / 2,
                if k % 2 == 0 {
                    c
                } else {
                    (h[8 + k / 2] % 16 + 16 * c) as u8
                },
            )
        }),
    ensures
        packed_below(p, next, n + 1),
{
    let k = men_below(p, n);
    lemma_men_monotonic(p, 0, n);
    lemma_men_monotonic(p, n + 1, 64);
    assert(men_below(p, n + 1) == k + 1);
    assert(0 <= man_code(p, n) < 16);
    assert(code(h, k) == 0);
    if k % 2 == 0 {
        assert(code(h, k + 1) == 0);
    }
    assert forall|i: int| 0 <= i < 64 implies #[trigger] occupied(next, i) == (i < n + 1
        && p.squares[i] is Some) by {
        assert(occupied(h, i) == (i < n && p.squares[i] is Some));
        if i / 8 == n / 8 {
            lemma_set_bit(h[n / 8], n % 8, i % 8);
        }
    }
    assert forall|j: int| 0 <= j < 32 implies #[trigger] code(next, j) == if j == k {
        man_code(p, n)
    } else {
        code(h, j)
    } by {
        if j / 2 == k / 2 && j != k {
            assert(k % 2 == 1 || code(h, k + 1) == 0);
        }
    }
    assert forall|i: int| 0 <= i < n + 1 && p.squares[i] is Some implies code(
        next,
        #[trigger] men_below(p, i),
    ) == man_code(p, i) by {
        lemma_men_monotonic(p, 0, i);
        if i < n {
            lemma_men_monotonic(p, i + 1, n);
            assert(men_below(p, i) < men_below(p, i + 1) <= men_below(p, n));
        }
    }
}

/// Packs the position on `board` and the outcome of the game.
pub fn pack_header(board: &Board, outcome: GameOutcome) -> (r: Result<GameHeaderBytes, Error>)
    ensures
        match r {
            Ok(bytes) => pack_fault(board@) is None && packs(board@, outcome, bytes@),
            Err(e) => pack_fault(board@) matches Some(m) && e@ == error::bad(m),
        },
{
    if board.count(None, None) > MAX_PIECES {
        return Err(invalid("more than 32 chess pieces"));
    }
    let mut bytes: GameHeaderBytes = [0; 32];
    let ghost p = board@;
    let mut k: usize = 0;
    let mut i: usize = 0;
    assert(packed_below(p, bytes@, 0)) by {
        assert forall|i: int| 0 <= i < 64 implies !#[trigger] occupied(bytes@, i) by {
            lemma_no_bit(i % 8);
        }
    }
    while i < 64
        invariant
            p == board@,
            p.number(None, None) <= MAX_PIECES,
            i <= 64,
            k == men_below(p, i as int),
            k <= MAX_PIECES,
            packed_below(p, bytes@, i as int),
        decreases 64 - i,
    {
        let ghost before = bytes@;
        proof {
            lemma_men_monotonic(p, i + 1, 64);
        }
        match board.squares[i] {
            Some(m) => {
                let s = Square::index(i);
                let back = s.rank.relative_to(m.color);
                let castling = m.piece == Piece::Rook && back.position() == 0
                    && board.castling_rights(m.color).includes(s.file);
                let c = 8 * m.color.code() + if castling {
                    6
                } else {
                    m.piece.code()
                };
                assert(c == man_code(p, i as int));
                assert(code(before, k as int) == 0);
                bytes[i / 8] = bytes[i / 8] | (1u8 << ((i % 8) as u8));
                if k % 2 == 0 {
                    bytes[8 + k / 2] = c;
                } else {
                    bytes[8 + k / 2] = bytes[8 + k / 2] % 16 + 16 * c;
                }
                proof {
                    lemma_pack_step(p, before, bytes@, i as int);
                }
                k += 1;
            },
            None => {
                assert(packed_below(p, bytes@, i + 1)) by {
                    assert(men_below(p, i + 1) == men_below(p, i as int));
                }
            },
        }
        i += 1;
    }
    let passing = match board.en_passant {
        Some(file) => Square::new(file, Rank::Sixth.relative_to(board.stm)).position() as u8,
        None => NO_SQUARE,
    };
    let duck = match board.duck {
        Some(s) => s.position() as u8,
        None => NO_SQUARE,
    };
    let ghost before = bytes@;
    bytes[24] = 128 * board.stm.code() + passing;
    bytes[25] = board.hmc;
    bytes[26] = (board.fmc % 256) as u8;
    bytes[27] = (board.fmc / 256) as u8;
    bytes[30] = outcome.code();
    bytes[31] = duck;
    proof {
        assert forall|i: int| 0 <= i < 64 implies #[trigger] occupied(bytes@, i) == (
        p.squares[i] is Some) by {
            assert(occupied(before, i) == (p.squares[i] is Some));
        }
        assert forall|k: int| 0 <= k < 32 implies #[trigger] code(bytes@, k) == code(before, k) by {
        }
        assert forall|i: int| 0 <= i < 64 && p.squares[i] is Some implies code(
            bytes@,
            #[trigger] men_below(p, i),
        ) == man_code(p, i) by {
            lemma_men_monotonic(p, 0, i);
            lemma_men_monotonic(p, i + 1, 64);
        }
        assert(packs(p, outcome, bytes@));
        lemma_pack_fault(p, outcome, bytes@);
    }
    match validate_game_header(&bytes) {
        Ok(()) => Ok(bytes),
        Err(e) => Err(e),
    }
}

/// The man that the code `c` stands for.
pub open spec fn coded_man(c: int) -> Man {
    Man {
        color: if c >= 8 {
            Color::Black
        } else {
            Color::White
        },
        piece: if c % 8 == 0 {
            Piece::Pawn
        } else if c % 8 == 1 {
            Piece::Knight
        } else if c % 8 == 2 {
            Piece::Bishop
        } else if c % 8 == 4 {
            Piece::Queen
        } else if c % 8 == 5 {
            Piece::King
        } else {
            Piece::Rook
        },
    }
}

/// The code of the man on the square with number `i`.
pub open spec fn code_on(h: Seq<u8>, i: int) -> int {
    code(h, occupied_below(h, i))
}

/// What stands on the squares.
pub open spec fn unpacked_men(h: Seq<u8>) -> Seq<Option<Man>> {
    Seq::new(
        64,
        |i: int|
            if occupied(h, i) {
                Some(coded_man(code_on(h, i)))
            } else {
                None
            },
    )
}

/// The first man from the square with number `i` on that stands where it cannot stand.
pub open spec fn place_fault(h: Seq<u8>, i: int) -> Option<Seq<char>>
    decreases 64 - i,
{
    if i >= 64 {
        None
    } else if occupied(h, i) && code_on(h, i) % 8 == 0 && (i / 8 == 0 || i / 8 == 7) {
        Some("pawn on back rank"@)
    } else if occupied(h, i) && code_on(h, i) % 8 == 6 && i / 8 != common::relative(
        0,
        coded_man(code_on(h, i)).color,
    ) {
        Some("castling rook off back rank"@)
    } else {
        place_fault(h, i + 1)
    }
}

/// Whether the square at file position `f` of the back rank of `color` holds a castling rook.
pub open spec fn marked(h: Seq<u8>, color: Color, f: int) -> bool {
    let i = 8 * common::relative(0, color) + f;
    occupied(h, i) && code_on(h, i) == 6 + 8 * color.number()
}

/// The castling rights of `color` after the files from position `f` on.
pub open spec fn unpacked_rights(
    h: Seq<u8>,
    color: Color,
    king: Option<Square>,
    f: int,
    rights: CastlingRights,
) -> Option<CastlingRights>
    decreases 8 - f,
{
    if f >= 8 {
        Some(rights)
    } else if marked(h, color, f) {
        match fen::add_right(rights, king, color, File::of(f)) {
            Some(more) => unpacked_rights(h, color, king, f + 1, more),
            None => None,
        }
    } else {
        unpacked_rights(h, color, king, f + 1, rights)
    }
}

/// The castling rights of `color`.
pub open spec fn rights_in(h: Seq<u8>, color: Color) -> Option<CastlingRights> {
    unpacked_rights(
        h,
        color,
        board::king_from(unpacked_men(h), color, 0),
        0,
        fen::no_rights(),
    )
}

/// The side to move.
pub open spec fn side_in(h: Seq<u8>) -> Color {
    if h[24] >= 128 {
        Color::Black
    } else {
        Color::White
    }
}

/// The file of the pawn that may be taken in passing. The square behind it lies on the sixth rank
/// of the side to move.
pub open spec fn passing_in(h: Seq<u8>) -> Option<Option<File>> {
    let s = (h[24] % 128) as int;
    if s == NO_SQUARE {
        Some(None)
    } else if s / 8 == common::relative(5, side_in(h)) {
        Some(Some(File::of(s % 8)))
    } else {
        None
    }
}

/// Whether the pawn that may be taken in passing is there.
pub open spec fn passing_pawn(p: Position) -> bool {
    match p.en_passant {
        Some(file) => p.man(file.at(), common::relative(4, p.stm)) == Some(
            Man { color: p.stm.opposite(), piece: Piece::Pawn },
        ),
        None => true,
    }
}

/// The position that a header holds.
pub open spec fn unpacked(h: Seq<u8>) -> Result<Position, (ErrorKind, Seq<char>)> {
    match header_fault(h) {
        Some(m) => Err(error::bad(m)),
        None => match place_fault(h, 0) {
            Some(m) => Err(error::bad(m)),
            None => match (
                rights_in(h, Color::White),
                rights_in(h, Color::Black),
                passing_in(h),
            ) {
                (Some(white), Some(black), Some(file)) => {
                    let p = Position {
                        squares: unpacked_men(h),
                        stm: side_in(h),
                        white_castling: white,
                        black_castling: black,
                        en_passant: file,
                        duck: if h[31] < NO_SQUARE {
                            Some(Square::of(h[31] as int))
                        } else {
                            None
                        },
                        hmc: h[25],
                        fmc: turn(h) as u16,
                    };
                    if passing_pawn(p) {
                        Ok(p)
                    } else {
                        Err(error::bad("en passant has no opposing pawn"@))
                    }
                },
                _ => Err(error::bad("invalid packed board"@)),
            },
        },
    }
}

/// The man that the code `c` stands for.
fn man_from_code(c: u8) -> (r: Man)
    ensures
        r == coded_man(c as int),
{
    let color = if c >= 8 {
        Color::Black
    } else {
        Color::White
    };
    let piece = match c % 8 {
        0 => Piece::Pawn,
        1 => Piece::Knight,
        2 => Piece::Bishop,
        3 => Piece::Rook,
        4 => Piece::Queen,
        5 => Piece::King,
        _ => Piece::Rook,
    };
    Man { color, piece }
}

proof fn lemma_occupied_monotonic(h: Seq<u8>, a: int, b: int)
    requires
        0 <= a <= b,
    ensures
        0 <= occupied_below(h, a) <= occupied_below(h, b),
    decreases b,
{
    if a < b {
        lemma_occupied_monotonic(h, a, b - 1);
    } else if a > 0 {
        lemma_occupied_monotonic(h, a - 1, a - 1);
    }
}

/// Whether the square at file position `f` of the back rank of `color` holds a castling rook.
fn is_marked(bytes: &GameHeaderBytes, codes: &[u8; 64], color: Color, f: usize) -> (r: bool)
    requires
        f < 8,
        forall|j: int| 0 <= j < 64 && occupied(bytes@, j) ==> #[trigger] codes@[j] == code_on(bytes@, j),
    ensures
        r == marked(bytes@, color, f as int),
{
    let i = Square::new(File::index(f), Rank::First.relative_to(color)).position();
    is_occupied(bytes, i) && codes[i] == 6 + 8 * color.code()
}

/// The castling rights of `color`.
fn read_rights(
    bytes: &GameHeaderBytes,
    codes: &[u8; 64],
    color: Color,
    king: Option<Square>,
) -> (r: Option<CastlingRights>)
    requires
        forall|j: int| 0 <= j < 64 && occupied(bytes@, j) ==> #[trigger] codes@[j] == code_on(bytes@, j),
    ensures
        r == unpacked_rights(bytes@, color, king, 0, fen::no_rights()),
{
    let mut rights = CastlingRights { short: None, long: None };
    let mut f: usize = 0;
    while f < 8
        invariant
            f <= 8,
            forall|j: int|
                0 <= j < 64 && occupied(bytes@, j) ==> #[trigger] codes@[j] == code_on(bytes@, j),
            unpacked_rights(bytes@, color, king, 0, fen::no_rights()) == unpacked_rights(
                bytes@,
                color,
                king,
                f as int,
                rights,
            ),
        decreases 8 - f,
    {
        if is_marked(bytes, codes, color, f) {
            match with_right(rights, king, color, File::index(f)) {
                Some(more) => rights = more,
                None => return None,
            }
        }
        f += 1;
    }
    Some(rights)
}

/// Unpacks the position that a header holds.
pub fn unpack_header(bytes: &GameHeaderBytes) -> (r: Result<Board, Error>)
    ensures
        match (r, unpacked(bytes@)) {
            (Ok(b), Ok(p)) => b@ == p,
            (Err(e), Err(f)) => e@ == f,
            _ => false,
        },
{
    match validate_game_header(bytes) {
        Ok(()) => {},
        Err(e) => return Err(e),
    }
    let stm = if bytes[24] >= 128 {
        Color::Black
    } else {
        Color::White
    };
    let duck = if bytes[31] < NO_SQUARE {
        Some(Square::index(bytes[31] as usize))
    } else {
        None
    };
    let none = CastlingRights { short: None, long: None };
    let mut board = Board {
        squares: [None; 64],
        stm,
        white_castling: none,
        black_castling: none,
        en_passant: None,
        duck,
        hmc: bytes[25],
        fmc: bytes[26] as u16 + 256 * (bytes[27] as u16),
    };
    let mut codes: [u8; 64] = [0; 64];
    let mut k: usize = 0;
    let mut i: usize = 0;
    while i < 64
        invariant
            i <= 64,
            header_fault(bytes@) is None,
            k == occupied_below(bytes@, i as int),
            place_fault(bytes@, 0) == place_fault(bytes@, i as int),
            forall|j: int| 0 <= j < i ==> #[trigger] board@.squares[j] == unpacked_men(bytes@)[j],
            forall|j: int|
                0 <= j < i && occupied(bytes@, j) ==> #[trigger] codes@[j] == code_on(bytes@, j),
            board.stm == stm,
            board.duck == duck,
            board.en_passant == None::<File>,
            board.hmc == bytes@[25],
            board.fmc == turn(bytes@),
        decreases 64 - i,
    {
        proof {
            lemma_occupied_monotonic(bytes@, i + 1, 64);
        }
        let ghost squares = board@.squares;
        let ghost before = codes@;
        let mut man: Option<Man> = None;
        if is_occupied(bytes, i) {
            let c = read_code(bytes, k);
            let m = man_from_code(c);
            let rank = i / 8;
            if c % 8 == 0 && (rank == 0 || rank == 7) {
                return Err(invalid("pawn on back rank"));
            }
            if c % 8 == 6 && rank != Rank::First.relative_to(m.color).position() {
                return Err(invalid("castling rook off back rank"));
            }
            man = Some(m);
            codes[i] = c;
            assert(codes@ == before.update(i as int, c));
            k += 1;
        }
        board.squares[i] = man;
        assert(board@.squares == squares.update(i as int, man));
        assert(unpacked_men(bytes@)[i as int] == man);
        i += 1;
    }
    assert(board@.squares =~= unpacked_men(bytes@));
    let white = read_rights(bytes, &codes, Color::White, board.try_king(Color::White));
    let black = read_rights(bytes, &codes, Color::Black, board.try_king(Color::Black));
    let passing = bytes[24] % 128;
    match (white, black) {
        (Some(white), Some(black)) => {
            board.white_castling = white;
            board.black_castling = black;
        },
        _ => return Err(invalid("invalid packed board")),
    }
    if passing == NO_SQUARE {
        return Ok(board);
    }
    let s = Square::index(passing as usize);
    if s.rank != Rank::Sixth.relative_to(stm) {
        return Err(invalid("invalid packed board"));
    }
    board.en_passant = Some(s.file);
    let victim = Square::new(s.file, Rank::Fifth.relative_to(stm));
    if board.holds(victim, Man { color: stm.other(), piece: Piece::Pawn }) {
        Ok(board)
    } else {
        Err(invalid("en passant has no opposing pawn"))
    }
}

/// Whether the castling rights of `color` fit the men: the king is on its back rank, and on the
/// same rank a rook stands on the side and on the file of each right.
pub open spec fn rights_fit(p: Position, color: Color) -> bool {
    let king = board::king_from(p.squares, color, 0);
    let rook = Some(Man { color, piece: Piece::Rook });
    let back = common::relative(0, color);
    &&& p.rights(color).short matches Some(f) ==> {
        &&& king matches Some(k)
        &&& k.rank.seen_by(color) == 0
        &&& f.at() > k.file.at()
        &&& p.squares[8 * back + f.at()] == rook
    }
    &&& p.rights(color).long matches Some(f) ==> {
        &&& king matches Some(k)
        &&& k.rank.seen_by(color) == 0
        &&& f.at() < k.file.at()
        &&& p.squares[8 * back + f.at()] == rook
    }
}

/// Whether a position is one that a header can hold: no pawns on the outer ranks, castling rights
/// that fit the men, and a pawn where one may be taken in passing.
pub open spec fn fitting(p: Position) -> bool {
    &&& p.squares.len() == 64
    &&& forall|i: int|
        0 <= i < 64 && (i < 8 || i >= 56) && p.squares[i] is Some ==> (
        #[trigger] p.squares[i])->0.piece != Piece::Pawn
    &&& rights_fit(p, Color::White)
    &&& rights_fit(p, Color::Black)
    &&& passing_pawn(p)
}

/// The code of a man stands for the man.
proof fn lemma_coded_man(p: Position, i: int)
    requires
        p.squares[i] is Some,
    ensures
        coded_man(man_code(p, i)) == p.squares[i]->0,
        0 <= man_code(p, i) < 15,
        man_code(p, i) % 8 == if castling_rook(p, i) {
            6
        } else {
            p.squares[i]->0.piece.number()
        },
{
    let m = p.squares[i]->0;
    match m.color {
        Color::White => {},
        Color::Black => {},
    }
    match m.piece {
        Piece::Pawn => {},
        Piece::Knight => {},
        Piece::Bishop => {},
        Piece::Rook => {},
        Piece::Queen => {},
        Piece::King => {},
    }
}

/// The rights of `rights` that belong to files below position `f`.
spec fn rights_below(rights: CastlingRights, f: int) -> CastlingRights {
    CastlingRights {
        short: match rights.short {
            Some(x) if x.at() < f => Some(x),
            _ => None,
        },
        long: match rights.long {
            Some(x) if x.at() < f => Some(x),
            _ => None,
        },
    }
}

proof fn lemma_rights_fold(
    h: Seq<u8>,
    color: Color,
    king: Option<Square>,
    f: int,
    rights: CastlingRights,
)
    requires
        0 <= f <= 8,
        forall|g: int| 0 <= g < 8 ==> #[trigger] marked(h, color, g) == rights.has(File::of(g)),
        rights.short matches Some(x) ==> (king matches Some(k) && k.rank.seen_by(color) == 0
            && x.at() > k.file.at()),
        rights.long matches Some(x) ==> (king matches Some(k) && k.rank.seen_by(color) == 0
            && x.at() < k.file.at()),
    ensures
        unpacked_rights(h, color, king, f, rights_below(rights, f)) == Some(rights),
    decreases 8 - f,
{
    if f < 8 {
        let file = File::of(f);
        assert(file.at() == f);
        assert(marked(h, color, f) == rights.has(file));
        lemma_rights_fold(h, color, king, f + 1, rights);
        let here = rights_below(rights, f);
        let next = rights_below(rights, f + 1);
        assert(rights.short matches Some(x) ==> (x.at() == f ==> x == file));
        assert(rights.long matches Some(x) ==> (x.at() == f ==> x == file));
        if rights.has(file) {
            assert(fen::add_right(here, king, color, file) == Some(next));
        } else {
            assert(here == next);
        }
    } else {
        assert(rights_below(rights, f) == rights);
    }
}

proof fn lemma_no_place_fault(h: Seq<u8>, i: int)
    requires
        0 <= i <= 64,
        forall|j: int|
            0 <= j < 64 && #[trigger] occupied(h, j) ==> {
                &&& code_on(h, j) % 8 == 0 ==> 0 < j / 8 < 7
                &&& code_on(h, j) % 8 == 6 ==> j / 8 == common::relative(
                    0,
                    coded_man(code_on(h, j)).color,
                )
            },
    ensures
        place_fault(h, i) is None,
    decreases 64 - i,
{
    if i < 64 {
        lemma_no_place_fault(h, i + 1);
        assert(occupied(h, i) || !occupied(h, i));
    }
}

/// In a packed position each man has its code.
proof fn lemma_packed_codes(p: Position, outcome: GameOutcome, h: Seq<u8>)
    requires
        packs(p, outcome, h),
    ensures
        forall|i: int|
            0 <= i < 64 && #[trigger] occupied(h, i) ==> code_on(h, i) == man_code(p, i)
                && p.squares[i] is Some,
{
    assert forall|i: int| 0 <= i < 64 && #[trigger] occupied(h, i) implies code_on(h, i)
        == man_code(p, i) && p.squares[i] is Some by {
        lemma_occupied_men(p, h, i);
        assert(code(h, men_below(p, i)) == man_code(p, i));
    }
}

proof fn lemma_packed_men(p: Position, outcome: GameOutcome, h: Seq<u8>)
    requires
        packs(p, outcome, h),
        fitting(p),
    ensures
        unpacked_men(h) == p.squares,
        place_fault(h, 0) is None,
{
    lemma_packed_codes(p, outcome, h);
    assert forall|i: int| 0 <= i < 64 implies unpacked_men(h)[i] == #[trigger] p.squares[i] by {
        assert(occupied(h, i) == (p.squares[i] is Some));
        if occupied(h, i) {
            lemma_coded_man(p, i);
        }
    }
    assert(unpacked_men(h) =~= p.squares);
    assert forall|j: int| 0 <= j < 64 && #[trigger] occupied(h, j) implies {
        &&& code_on(h, j) % 8 == 0 ==> 0 < j / 8 < 7
        &&& code_on(h, j) % 8 == 6 ==> j / 8 == common::relative(0, coded_man(code_on(h, j)).color)
    } by {
        lemma_coded_man(p, j);
        assert(p.squares[j] is Some);
    }
    lemma_no_place_fault(h, 0);
}

proof fn lemma_packed_rights(p: Position, outcome: GameOutcome, h: Seq<u8>, color: Color)
    requires
        packs(p, outcome, h),
        fitting(p),
    ensures
        rights_in(h, color) == Some(p.rights(color)),
{
    lemma_packed_codes(p, outcome, h);
    lemma_packed_men(p, outcome, h);
    lemma_marks(p, h, color);
    lemma_rights_fold(h, color, board::king_from(p.squares, color, 0), 0, p.rights(color));
    assert(rights_below(p.rights(color), 0) == fen::no_rights());
}

proof fn lemma_packed_passing(p: Position, outcome: GameOutcome, h: Seq<u8>)
    requires
        packs(p, outcome, h),
    ensures
        side_in(h) == p.stm,
        passing_in(h) == Some(p.en_passant),
{
    match p.stm {
        Color::White => {},
        Color::Black => {},
    }
    match p.en_passant {
        Some(file) => {
            assert(File::of(file.at()) == file);
        },
        None => {},
    }
}

/// Unpacking a packed position gives the position back, if it fits into a header at all.
pub proof fn law_header_round_trip(p: Position, outcome: GameOutcome, h: Seq<u8>)
    requires
        fitting(p),
        pack_fault(p) is None,
        packs(p, outcome, h),
    ensures
        unpacked(h) == Ok::<Position, (ErrorKind, Seq<char>)>(p),
{
    lemma_pack_fault(p, outcome, h);
    lemma_packed_men(p, outcome, h);
    lemma_packed_rights(p, outcome, h, Color::White);
    lemma_packed_rights(p, outcome, h, Color::Black);
    lemma_packed_passing(p, outcome, h);
    match p.duck {
        Some(s) => {
            assert(Square::of(s.at()) == s);
        },
        None => {},
    }
}

/// In a packed position the castling rooks are those of the castling rights.
proof fn lemma_marks(p: Position, h: Seq<u8>, color: Color)
    requires
        rights_fit(p, color),
        forall|i: int|
            0 <= i < 64 && #[trigger] occupied(h, i) ==> code_on(h, i) == man_code(p, i)
                && p.squares[i] is Some,
        forall|i: int| 0 <= i < 64 ==> #[trigger] occupied(h, i) == (p.squares[i] is Some),
    ensures
        forall|g: int|
            0 <= g < 8 ==> #[trigger] marked(h, color, g) == p.rights(color).has(File::of(g)),
{
    assert forall|g: int| 0 <= g < 8 implies #[trigger] marked(h, color, g) == p.rights(color).has(
        File::of(g),
    ) by {
        let i = 8 * common::relative(0, color) + g;
        assert(i / 8 == common::relative(0, color) && i % 8 == g);
        assert(File::of(g).at() == g);
        assert(occupied(h, i) == (p.squares[i] is Some));
        if p.squares[i] is Some {
            lemma_coded_man(p, i);
            let m = p.squares[i]->0;
            if marked(h, color, g) {
                assert(man_code(p, i) == 6 + 8 * color.number());
                assert(castling_rook(p, i));
                assert(m.color == color);
            }
            if p.rights(color).has(File::of(g)) {
                assert(m == (Man { color, piece: Piece::Rook }));
                assert(castling_rook(p, i));
            }
        }
    }
}

/// What castling rights come out of a header.
proof fn lemma_rights_out(
    h: Seq<u8>,
    color: Color,
    king: Option<Square>,
    f: int,
    rights: CastlingRights,
)
    requires
        0 <= f <= 8,
        unpacked_rights(h, color, king, f, rights) is Some,
    ensures
        ({
            let out = unpacked_rights(h, color, king, f, rights)->0;
            &&& forall|g: int|
                0 <= g < 8 ==> (out.has(#[trigger] File::of(g)) <==> rights.has(File::of(g)) || (f
                    <= g && marked(h, color, g)))
            &&& out.short matches Some(x) ==> out.short == rights.short || (king matches Some(k)
                && k.rank.seen_by(color) == 0 && x.at() > k.file.at() && marked(h, color, x.at()))
            &&& out.long matches Some(x) ==> out.long == rights.long || (king matches Some(k)
                && k.rank.seen_by(color) == 0 && x.at() < k.file.at() && marked(h, color, x.at()))
            &&& rights.short is Some ==> out.short == rights.short
            &&& rights.long is Some ==> out.long == rights.long
        }),
    decreases 8 - f,
{
    if f < 8 {
        let file = File::of(f);
        assert(file.at() == f);
        if marked(h, color, f) {
            let more = fen::add_right(rights, king, color, file)->0;
            lemma_rights_out(h, color, king, f + 1, more);
            let out = unpacked_rights(h, color, king, f, rights)->0;
            assert forall|g: int| 0 <= g < 8 implies (out.has(#[trigger] File::of(g))
                <==> rights.has(File::of(g)) || (f <= g && marked(h, color, g))) by {
                assert(File::of(g).at() == g);
                assert(more.has(File::of(g)) <==> rights.has(File::of(g)) || g == f);
            }
        } else {
            lemma_rights_out(h, color, king, f + 1, rights);
        }
    }
}

proof fn lemma_place_fault_out(h: Seq<u8>, i: int, j: int)
    requires
        0 <= i <= j < 64,
        place_fault(h, i) is None,
        occupied(h, j),
    ensures
        code_on(h, j) % 8 == 0 ==> 0 < j / 8 < 7,
        code_on(h, j) % 8 == 6 ==> j / 8 == common::relative(0, coded_man(code_on(h, j)).color),
    decreases j - i,
{
    if i < j {
        lemma_place_fault_out(h, i + 1, j);
    }
}

proof fn lemma_unpacked_codes(h: Seq<u8>, p: Position)
    requires
        h.len() == 32,
        unpacked(h) == Ok::<Position, (ErrorKind, Seq<char>)>(p),
    ensures
        forall|i: int| 0 <= i < 64 ==> #[trigger] occupied(h, i) == (p.squares[i] is Some),
        forall|i: int|
            0 <= i < 64 && p.squares[i] is Some ==> code(h, #[trigger] men_below(p, i)) == man_code(
                p,
                i,
            ),
        forall|k: int| men_below(p, 64) <= k < 32 ==> #[trigger] code(h, k) == 0,
{
    assert forall|i: int| 0 <= i < 64 implies #[trigger] occupied(h, i) == (p.squares[i] is Some) by {
    }
    lemma_occupied_men(p, h, 64);
    lemma_rights_of_header(h, p, Color::White);
    lemma_rights_of_header(h, p, Color::Black);
    assert forall|i: int| 0 <= i < 64 && p.squares[i] is Some implies code(
        h,
        #[trigger] men_below(p, i),
    ) == man_code(p, i) by {
        lemma_occupied_men(p, h, i);
        lemma_unpacked_code(h, p, i);
    }
}

proof fn lemma_unpacked_code(h: Seq<u8>, p: Position, i: int)
    requires
        h.len() == 32,
        unpacked(h) == Ok::<Position, (ErrorKind, Seq<char>)>(p),
        0 <= i < 64,
        p.squares[i] is Some,
        forall|c: Color, g: int|
            0 <= g < 8 ==> #[trigger] marked(h, c, g) == p.rights(c).has(File::of(g)),
    ensures
        code_on(h, i) == man_code(p, i),
{
    lemma_occupied_monotonic(h, 0, i);
    lemma_occupied_monotonic(h, i + 1, 64);
    assert(occupied(h, i));
    let c = code_on(h, i);
    assert(0 <= c < 16);
    assert(c % 8 != 7);
    lemma_place_fault_out(h, 0, i);
    let m = coded_man(c);
    assert(p.squares[i] == Some(m));
    assert(c == 8 * m.color.number() + c % 8);
    assert(marked(h, m.color, i % 8) == p.rights(m.color).has(File::of(i % 8)));
    if i / 8 == common::relative(0, m.color) {
        assert(i == 8 * common::relative(0, m.color) + i % 8);
    }
}

proof fn lemma_unpacked_rest(h: Seq<u8>, p: Position)
    requires
        h.len() == 32,
        unpacked(h) == Ok::<Position, (ErrorKind, Seq<char>)>(p),
    ensures
        crate::format::outcome_of(h[30]) is Ok,
        h[30] == (crate::format::outcome_of(h[30])->Ok_0).number(),
        h[24] == 128 * p.stm.number() + passing_square(p),
        h[25] == p.hmc,
        turn(h) == p.fmc,
        h[28] == 0,
        h[29] == 0,
        h[31] == duck_square(p),
{
    let s = (h[24] % 128) as int;
    match p.en_passant {
        Some(file) => {
            assert(file == File::of(s % 8));
            assert(file.at() == s % 8);
        },
        None => {},
    }
    if h[31] < NO_SQUARE {
        assert(Square::of(h[31] as int).at() == h[31]);
    }
}

/// A header that holds a position is what packing that position makes. The position fits into a
/// header.
pub proof fn law_header_bytes(h: Seq<u8>, p: Position)
    requires
        h.len() == 32,
        unpacked(h) == Ok::<Position, (ErrorKind, Seq<char>)>(p),
    ensures
        crate::format::outcome_of(h[30]) is Ok,
        packs(p, crate::format::outcome_of(h[30])->Ok_0, h),
        pack_fault(p) is None,
        fitting(p),
{
    let outcome = crate::format::outcome_of(h[30])->Ok_0;
    lemma_unpacked_codes(h, p);
    lemma_unpacked_rest(h, p);
    assert(packs(p, outcome, h));
    lemma_occupied_men(p, h, 64);
    assert(sane(h));
    lemma_pack_fault(p, outcome, h);
    lemma_rights_of_header(h, p, Color::White);
    lemma_rights_of_header(h, p, Color::Black);
    assert forall|i: int|
        0 <= i < 64 && (i < 8 || i >= 56) && p.squares[i] is Some implies (
    #[trigger] p.squares[i])->0.piece != Piece::Pawn by {
        assert(occupied(h, i));
        lemma_place_fault_out(h, 0, i);
    }
}

proof fn lemma_rights_of_header(h: Seq<u8>, p: Position, color: Color)
    requires
        h.len() == 32,
        unpacked(h) == Ok::<Position, (ErrorKind, Seq<char>)>(p),
    ensures
        forall|g: int|
            0 <= g < 8 ==> #[trigger] marked(h, color, g) == p.rights(color).has(File::of(g)),
        rights_fit(p, color),
{
    let king = board::king_from(p.squares, color, 0);
    lemma_rights_out(h, color, king, 0, fen::no_rights());
    let rights = p.rights(color);
    assert(rights == unpacked_rights(h, color, king, 0, fen::no_rights())->0);
    assert forall|g: int| 0 <= g < 8 implies #[trigger] marked(h, color, g) == p.rights(color).has(
        File::of(g),
    ) by {
        assert(rights.has(File::of(g)) <==> fen::no_rights().has(File::of(g)) || marked(h, color, g));
    }
    assert forall|f: int| 0 <= f < 8 && #[trigger] marked(h, color, f) implies p.squares[8
        * common::relative(0, color) + f] == Some(Man { color, piece: Piece::Rook }) by {
        let i = 8 * common::relative(0, color) + f;
        assert(occupied(h, i));
        assert(coded_man(6 + 8 * color.number()) == (Man { color, piece: Piece::Rook }));
    }
}

/// Two bytes with the same bits are the same.
proof fn lemma_same_byte(a: u8, b: u8)
    requires
        forall|k: int| 0 <= k < 8 ==> #[trigger] bit(a, k) == bit(b, k),
    ensures
        a == b,
{
    assert(bit(a, 0) == bit(b, 0) && bit(a, 1) == bit(b, 1) && bit(a, 2) == bit(b, 2) && bit(a, 3)
        == bit(b, 3) && bit(a, 4) == bit(b, 4) && bit(a, 5) == bit(b, 5) && bit(a, 6) == bit(b, 6)
        && bit(a, 7) == bit(b, 7));
    assert(a == b) by (bit_vector)
        requires
            ((a >> 0u8) & 1u8 == 1u8) == ((b >> 0u8) & 1u8 == 1u8),
            ((a >> 1u8) & 1u8 == 1u8) == ((b >> 1u8) & 1u8 == 1u8),
            ((a >> 2u8) & 1u8 == 1u8) == ((b >> 2u8) & 1u8 == 1u8),
            ((a >> 3u8) & 1u8 == 1u8) == ((b >> 3u8) & 1u8 == 1u8),
            ((a >> 4u8) & 1u8 == 1u8) == ((b >> 4u8) & 1u8 == 1u8),
            ((a >> 5u8) & 1u8 == 1u8) == ((b >> 5u8) & 1u8 == 1u8),
            ((a >> 6u8) & 1u8 == 1u8) == ((b >> 6u8) & 1u8 == 1u8),
            ((a >> 7u8) & 1u8 == 1u8) == ((b >> 7u8) & 1u8 == 1u8),
    ;
}

/// Two headers of the same position have the same codes.
proof fn lemma_same_codes(
    p: Position,
    outcome: GameOutcome,
    a: Seq<u8>,
    b: Seq<u8>,
    k: int,
    n: int,
)
    requires
        packs(p, outcome, a),
        packs(p, outcome, b),
        0 <= n <= 64,
        0 <= k < men_below(p, n),
    ensures
        code(a, k) == code(b, k),
    decreases n,
{
    if k < men_below(p, n - 1) {
        lemma_same_codes(p, outcome, a, b, k, n - 1);
    } else {
        assert(p.squares[n - 1] is Some);
        assert(k == men_below(p, n - 1));
    }
}

/// A position and an outcome have just one header.
pub proof fn law_one_header(p: Position, outcome: GameOutcome, a: Seq<u8>, b: Seq<u8>)
    requires
        packs(p, outcome, a),
        packs(p, outcome, b),
    ensures
        a == b,
{
    assert forall|j: int| 0 <= j < 32 implies a[j] == b[j] by {
        if j < 8 {
            assert forall|k: int| 0 <= k < 8 implies #[trigger] bit(a[j], k) == bit(b[j], k) by {
                let i = 8 * j + k;
                assert(i / 8 == j && i % 8 == k);
                assert(occupied(a, i) == occupied(b, i));
            }
            lemma_same_byte(a[j], b[j]);
        } else if j < 24 {
            let k = 2 * (j - 8);
            assert forall|x: int| k <= x < k + 2 implies #[trigger] code(a, x) == code(b, x) by {
                if x < men_below(p, 64) {
                    lemma_same_codes(p, outcome, a, b, x, 64);
                }
            }
            assert(code(a, k) == code(b, k) && code(a, k + 1) == code(b, k + 1));
            assert((k + 1) / 2 == j - 8);
        } else if j == 26 || j == 27 {
            assert(turn(a) == turn(b));
        }
    }
    assert(a =~= b);
}

/// The header of a position and an outcome.
pub open spec fn header_of(p: Position, outcome: GameOutcome) -> Seq<u8> {
    choose|h: Seq<u8>| #[trigger] packs(p, outcome, h)
}

/// There are bytes that hold what the squares below `n` hold.
proof fn lemma_packed_exists(p: Position, n: int) -> (h: Seq<u8>)
    requires
        0 <= n <= 64,
        p.number(None, None) <= MAX_PIECES,
    ensures
        packed_below(p, h, n),
    decreases n,
{
    if n == 0 {
        let h = Seq::new(32, |j: int| 0u8);
        assert forall|i: int| 0 <= i < 64 implies !#[trigger] occupied(h, i) by {
            lemma_no_bit(i % 8);
        }
        h
    } else {
        let h = lemma_packed_exists(p, n - 1);
        lemma_men_monotonic(p, 0, n - 1);
        lemma_men_monotonic(p, n, 64);
        if p.squares[n - 1] is Some {
            let k = men_below(p, n - 1);
            let c = man_code(p, n - 1) as u8;
            let half = h.update((n - 1) / 8, h[(n - 1) / 8] | (1u8 << (((n - 1) % 8) as u8)));
            let next = half.update(
                8 + k / 2,
                if k % 2 == 0 {
                    c
                } else {
                    (h[8 + k / 2] % 16 + 16 * c) as u8
                },
            );
            lemma_pack_step(p, h, next, n - 1);
            next
        } else {
            assert(men_below(p, n) == men_below(p, n - 1));
            h
        }
    }
}

/// Every position with no more than 32 men has a header.
pub proof fn law_header_exists(p: Position, outcome: GameOutcome)
    requires
        p.number(None, None) <= MAX_PIECES,
    ensures
        packs(p, outcome, header_of(p, outcome)),
{
    let before = lemma_packed_exists(p, 64);
    let h = before.update(24, (128 * p.stm.number() + passing_square(p)) as u8).update(
        25,
        p.hmc,
    ).update(26, (p.fmc % 256) as u8).update(27, (p.fmc / 256) as u8).update(
        30,
        outcome.number() as u8,
    ).update(31, duck_square(p) as u8);
    assert forall|i: int| 0 <= i < 64 implies #[trigger] occupied(h, i) == (p.squares[i] is Some) by {
        assert(occupied(before, i) == (p.squares[i] is Some));
    }
    assert forall|k: int| 0 <= k < 32 implies #[trigger] code(h, k) == code(before, k) by {}
    assert forall|i: int| 0 <= i < 64 && p.squares[i] is Some implies code(
        h,
        #[trigger] men_below(p, i),
    ) == man_code(p, i) by {
        lemma_men_monotonic(p, 0, i);
        lemma_men_monotonic(p, i + 1, 64);
    }
    assert(0 <= passing_square(p) <= 64);
    assert(0 <= duck_square(p) <= 64);
    assert(turn(h) == p.fmc) by {
        let n = p.fmc as int;
        assert(h[26] == n % 256 && h[27] == n / 256);
    }
    assert(before[28] == 0 && before[29] == 0);
    lemma_men_monotonic(p, 0, 64);
    match p.stm {
        Color::White => {},
        Color::Black => {},
    }
    assert(h[24] == 128 * p.stm.number() + passing_square(p));
    assert(packs(p, outcome, h));
}

} // verus!
