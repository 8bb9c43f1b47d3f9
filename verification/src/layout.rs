//! Where everything stands in the bytes of a file.
use crate::board::Position;
use crate::common::{Color, File, Man, Move, MoveFlag, Piece, Rank, Square};
use crate::format::{FormatError, GameOutcome, MoveRecord};
use crate::{common, games, header, moves, spelling, text};
use vstd::prelude::*;

verus! {

broadcast use crate::common::group_squares;

/// The number of a square, rank by rank from a1.
pub open spec fn number_of(s: Square) -> int {
    let f = match s.file {
        File::A => 0int,
        File::B => 1,
        File::C => 2,
        File::D => 3,
        File::E => 4,
        File::F => 5,
        File::G => 6,
        File::H => 7,
    };
    let r = match s.rank {
        Rank::First => 0int,
        Rank::Second => 8,
        Rank::Third => 16,
        Rank::Fourth => 24,
        Rank::Fifth => 32,
        Rank::Sixth => 40,
        Rank::Seventh => 48,
        Rank::Eighth => 56,
    };
    f + r
}

/// The number of a flag: 8 for captures, 4 for promotions, and behind that which.
pub open spec fn flag_number(flag: MoveFlag) -> int {
    match flag {
        MoveFlag::Normal => 0,
        MoveFlag::DoublePush => 1,
        MoveFlag::LongCastling => 2,
        MoveFlag::ShortCastling => 3,
        MoveFlag::PromotionQueen => 4int + 0,
        MoveFlag::PromotionRook => 4int + 1,
        MoveFlag::PromotionBishop => 4int + 2,
        MoveFlag::PromotionKnight => 4int + 3,
        MoveFlag::Capture => 8,
        MoveFlag::EnPassant => 8int + 1,
        MoveFlag::CapturePromotionQueen => 8int + 4 + 0,
        MoveFlag::CapturePromotionRook => 8int + 4 + 1,
        MoveFlag::CapturePromotionBishop => 8int + 4 + 2,
        MoveFlag::CapturePromotionKnight => 8int + 4 + 3,
    }
}

/// A record holds the source, the destination and the square of the duck in six bits each, the flag
/// in four, and two empty bits, the lowest first; then the score as a number of 16 bits, in which
/// negative ones count down from 65536.
pub proof fn law_record_layout(record: MoveRecord)
    ensures
        ({
            let b = record.bytes();
            let mv = record.mv;
            let score = record.white_score;
            &&& b.len() == 5
            &&& b[0] % 64 == number_of(mv.src)
            &&& b[0] / 64 + 4 * (b[1] % 16) == number_of(mv.dest)
            &&& b[1] / 16 + 16 * (b[2] % 4) == number_of(mv.duck)
            &&& b[2] / 4 == flag_number(mv.flag)
            &&& b[3] + 256 * b[4] == if score < 0 {
                65536 + score
            } else {
                score as int
            }
        }),
{
    let mv = record.mv;
    let b = record.bytes();
    let n = mv.number();
    let (s, t, d, f) = (mv.src.at(), mv.dest.at(), mv.duck.at(), mv.flag.number());
    assert(s == number_of(mv.src) && t == number_of(mv.dest) && d == number_of(mv.duck));
    assert(f == flag_number(mv.flag));
    let m = crate::format::move_bytes(mv);
    assert(b[0] == m[0] && b[1] == m[1] && b[2] == m[2]);
    lemma_split(s, t, d, f, n);
}

proof fn lemma_split(s: int, t: int, d: int, f: int, n: int)
    requires
        0 <= s < 64,
        0 <= t < 64,
        0 <= d < 64,
        0 <= f < 16,
        n == s + 64 * t + 4096 * d + 262144 * f,
    ensures
        (n % 256) % 64 == s,
        (n % 256) / 64 + 4 * (((n / 256) % 256) % 16) == t,
        ((n / 256) % 256) / 16 + 16 * ((n / 65536) % 256 % 4) == d,
        ((n / 65536) % 256) / 4 == f,
{
    assert(0 <= t % 4 < 4 && 0 <= t / 4 < 16 && 0 <= d % 16 < 16 && 0 <= d / 16 < 4);
    let a = s + 64 * (t % 4);
    let b = t / 4 + 16 * (d % 16);
    let c = d / 16 + 4 * f;
    assert(t == t % 4 + 4 * (t / 4) && d == d % 16 + 16 * (d / 16));
    assert(n == a + 256 * b + 65536 * c);
    crate::format::lemma_bytes_back(a, b, c, n);
    lemma_two_fields(s, t % 4, 64, a);
    lemma_two_fields(t / 4, d % 16, 16, b);
    lemma_two_fields(d / 16, f, 4, c);
}

proof fn lemma_two_fields(low: int, high: int, size: int, n: int)
    requires
        size == 64 || size == 16 || size == 4,
        0 <= low < size,
        0 <= high,
        n == low + size * high,
    ensures
        n % size == low,
        n / size == high,
{
}

/// A file begins with just these eight bytes: the letters `WAKF`, a one and zeros.
pub proof fn law_file_header_layout(b: Seq<u8>)
    requires
        b.len() == 8,
    ensures
        crate::format::file_fault(b) is None <==> b == seq![
            0x57u8,
            0x41u8,
            0x4bu8,
            0x46u8,
            1u8,
            0u8,
            0u8,
            0u8,
        ],
        b.take(4) != seq![0x57u8, 0x41u8, 0x4bu8, 0x46u8] ==> crate::format::file_fault(b) == Some(
            FormatError::InvalidMagic,
        ),
{
    let magic = crate::format::MAGIC;
    let four = seq![0x57u8, 0x41u8, 0x4bu8, 0x46u8];
    assert(magic@ =~= four);
    let all = seq![0x57u8, 0x41u8, 0x4bu8, 0x46u8, 1u8, 0u8, 0u8, 0u8];
    let t = b.take(4);
    assert(t[0] == b[0] && t[1] == b[1] && t[2] == b[2] && t[3] == b[3]);
    if crate::format::file_fault(b) is None {
        assert(t[0] == four[0] && t[1] == four[1] && t[2] == four[2] && t[3] == four[3]);
        assert(b =~= all);
    }
    if b == all {
        assert(t =~= four);
    }
}

/// The code of a man: by its kind, with 8 for Black; a rook with which its side may castle has the
/// code behind the king's.
pub open spec fn man_number(p: Position, s: Square) -> int {
    let m = p.squares[number_of(s)]->0;
    let side = match m.color {
        Color::White => 0int,
        Color::Black => 8,
    };
    let home = match m.color {
        Color::White => Rank::First,
        Color::Black => Rank::Eighth,
    };
    let rights = match m.color {
        Color::White => p.white_castling,
        Color::Black => p.black_castling,
    };
    let kind = match m.piece {
        Piece::Pawn => 0int,
        Piece::Knight => 1,
        Piece::Bishop => 2,
        Piece::Rook => if s.rank == home && (rights.short == Some(s.file) || rights.long == Some(
            s.file,
        )) {
            6
        } else {
            3
        },
        Piece::Queen => 4,
        Piece::King => 5,
    };
    side + kind
}

/// The header of a game: a bit for each square that holds a man; then, for each man in the order of
/// the squares, half a byte, the lower half first; then the side to move and the square behind a pawn
/// that may be taken in passing, the clock, the number of the turn, zeros, the outcome and the duck.
pub proof fn law_header_layout(p: Position, outcome: GameOutcome, h: Seq<u8>, s: Square)
    requires
        p.squares.len() == 64,
        p.number(None, None) <= 32,
        header::packs(p, outcome, h),
    ensures
        ({
            let i = number_of(s);
            let k = header::men_below(p, i);
            &&& h.len() == 32
            &&& ((h[i / 8] >> ((i % 8) as u8)) & 1u8 == 1u8) == (p.squares[i] is Some)
            &&& p.squares[i] is Some && k % 2 == 0 ==> h[8 + k / 2] % 16 == man_number(p, s)
            &&& p.squares[i] is Some && k % 2 == 1 ==> h[8 + k / 2] / 16 == man_number(p, s)
            &&& h[24] / 128 == match p.stm {
                Color::White => 0int,
                Color::Black => 1,
            }
            &&& p.en_passant is None ==> h[24] % 128 == 64
            &&& p.en_passant is Some ==> h[24] % 128 == number_of(
                Square {
                    file: p.en_passant->0,
                    rank: match p.stm {
                        Color::White => Rank::Sixth,
                        Color::Black => Rank::Third,
                    },
                },
            )
            &&& h[25] == p.hmc
            &&& h[26] + 256 * h[27] == p.fmc
            &&& h[28] == 0 && h[29] == 0
            &&& h[30] == match outcome {
                GameOutcome::BlackWin => 0int,
                GameOutcome::Draw => 1,
                GameOutcome::WhiteWin => 2,
            }
            &&& p.duck is None ==> h[31] == 64
            &&& p.duck is Some ==> h[31] == number_of(p.duck->0)
        }),
{
    let i = number_of(s);
    assert(i == s.at());
    let k = header::men_below(p, i);
    assert(header::occupied(h, i) == (p.squares[i] is Some));
    assert(i / 8 == s.rank.at() && i % 8 == s.file.at());
    if p.squares[i] is Some {
        assert(header::code(h, k) == header::man_code(p, i));
        assert(header::man_code(p, i) == man_number(p, s)) by {
            let m = p.squares[i]->0;
            assert(File::of(i % 8) == s.file);
            assert(Rank::of(i / 8) == s.rank);
            match m.color {
                Color::White => {},
                Color::Black => {},
            }
        }
    }
    match p.stm {
        Color::White => {},
        Color::Black => {},
    }
}

/// In a position that a header can hold, a move can be replayed just if it is legal, both kings are
/// there, there have been fewer than 100 quiet turns, and the number of the turn can grow.
pub proof fn law_legal_moves_are_replayed(p: Position, mv: Move)
    requires
        header::fitting(p),
    ensures
        games::replay_fault(p, mv) is None <==> {
            &&& p.legal(mv)
            &&& exists|i: int|
                0 <= i < 64 && #[trigger] p.squares[i] == Some(
                    Man { color: Color::White, piece: Piece::King },
                )
            &&& exists|i: int|
                0 <= i < 64 && #[trigger] p.squares[i] == Some(
                    Man { color: Color::Black, piece: Piece::King },
                )
            &&& p.hmc < 100
            &&& !(p.stm == Color::Black && p.fmc == 65535)
        },
{
    lemma_king_anywhere(p, Color::White);
    lemma_king_anywhere(p, Color::Black);
    match p.stm {
        Color::White => {},
        Color::Black => {},
    }
    if p.legal(mv) {
        let s = mv.src;
        let m = p.on(s)->0;
        if m.piece == Piece::Pawn {
            assert(p.squares[s.at()] is Some);
            assert(8 <= s.at() < 56);
            assert(mv.flag.castles() is None);
            assert(p.pawn_step(s, mv.dest, mv.flag));
        }
    }
}

proof fn lemma_king_anywhere(p: Position, color: Color)
    requires
        p.squares.len() == 64,
    ensures
        p.king(color) is Some <==> exists|i: int|
            0 <= i < 64 && #[trigger] p.squares[i] == Some(Man { color, piece: Piece::King }),
{
    let king = Some(Man { color, piece: Piece::King });
    if p.king(color) is Some {
        moves::lemma_king_there(p.squares, color, 0);
        assert(p.squares[p.king(color)->0.at()] == king);
    }
    if exists|i: int| 0 <= i < 64 && #[trigger] p.squares[i] == king {
        let i = choose|i: int| 0 <= i < 64 && #[trigger] p.squares[i] == king;
        moves::lemma_king_counts(p.squares, color, i, 64);
        moves::lemma_king_found(p.squares, color, 0);
    }
}

/// What holds of the positions that a header can hold: no pawn on the outer ranks, castling rights
/// only with the king on its first rank and a rook on its file beside it, and a pawn of the other
/// side where one may be taken in passing. And every such position can be held.
pub proof fn law_what_headers_hold(p: Position)
    requires
        p.squares.len() == 64,
    ensures
        header::fitting(p) <==> {
            &&& forall|f: int|
                0 <= f < 8 ==> p.squares[f] != pawn(Color::White) && #[trigger] p.squares[f] != pawn(
                    Color::Black,
                ) && p.squares[56 + f] != pawn(Color::White) && p.squares[56 + f] != pawn(
                    Color::Black,
                )
            &&& rights_hold(p, Color::White, 0, p.white_castling.short, p.white_castling.long)
            &&& rights_hold(p, Color::Black, 7, p.black_castling.short, p.black_castling.long)
            &&& p.en_passant is Some && p.stm == Color::White ==> p.squares[32
                + p.en_passant->0.at()] == pawn(Color::Black)
            &&& p.en_passant is Some && p.stm == Color::Black ==> p.squares[24
                + p.en_passant->0.at()] == pawn(Color::White)
        },
{
    if header::fitting(p) {
        assert forall|f: int| 0 <= f < 8 implies p.squares[f] != pawn(Color::White)
            && #[trigger] p.squares[f] != pawn(Color::Black) && p.squares[56 + f] != pawn(
            Color::White,
        ) && p.squares[56 + f] != pawn(Color::Black) by {
            assert(p.squares[f] is Some ==> p.squares[f]->0.piece != Piece::Pawn);
            assert(p.squares[56 + f] is Some ==> p.squares[56 + f]->0.piece != Piece::Pawn);
        }
    }
    if forall|f: int|
        0 <= f < 8 ==> p.squares[f] != pawn(Color::White) && #[trigger] p.squares[f] != pawn(
            Color::Black,
        ) && p.squares[56 + f] != pawn(Color::White) && p.squares[56 + f] != pawn(Color::Black) {
        assert forall|i: int|
            0 <= i < 64 && (i < 8 || i >= 56) && p.squares[i] is Some implies (
        #[trigger] p.squares[i])->0.piece != Piece::Pawn by {
            let f = if i < 8 {
                i
            } else {
                i - 56
            };
            assert(p.squares[f] != pawn(Color::White));
            let m = p.squares[i]->0;
            match m.color {
                Color::White => {},
                Color::Black => {},
            }
        }
    }
    lemma_rights_hold(p, Color::White);
    lemma_rights_hold(p, Color::Black);
    match p.stm {
        Color::White => {},
        Color::Black => {},
    }
}

/// A pawn.
pub open spec fn pawn(color: Color) -> Option<Man> {
    Some(Man { color, piece: Piece::Pawn })
}

/// Whether the castling rights of a side fit: its first king, square by square, is on rank position
/// `r`, and on the same rank a rook stands on the right's file, on the right side of the king.
pub open spec fn rights_hold(
    p: Position,
    color: Color,
    r: int,
    short: Option<File>,
    long: Option<File>,
) -> bool {
    let rook = Some(Man { color, piece: Piece::Rook });
    let k = p.king(color)->0;
    &&& short is Some ==> p.king(color) is Some && k.rank.at() == r && p.squares[8 * r
        + short->0.at()] == rook && short->0.at() > k.file.at()
    &&& long is Some ==> p.king(color) is Some && k.rank.at() == r && p.squares[8 * r
        + long->0.at()] == rook && long->0.at() < k.file.at()
}

proof fn lemma_rights_hold(p: Position, color: Color)
    ensures
        color == Color::White ==> (header::rights_fit(p, color) <==> rights_hold(
            p,
            color,
            0,
            p.white_castling.short,
            p.white_castling.long,
        )),
        color == Color::Black ==> (header::rights_fit(p, color) <==> rights_hold(
            p,
            color,
            7,
            p.black_castling.short,
            p.black_castling.long,
        )),
{
    match color {
        Color::White => {},
        Color::Black => {},
    }
}

/// Whether `s` ends with exactly `n` digits of the hexadecimal number `value`, behind `0x`.
pub open spec fn ends_with_hex(s: Seq<char>, value: nat, n: int) -> bool {
    &&& s.len() >= n + 2
    &&& s[s.len() - n - 2] == '0'
    &&& s[s.len() - n - 1] == 'x'
    &&& spelling::hex_value(s.skip(s.len() - n)) == value
}

/// Messages show file flags with four hexadecimal digits and moves with six.
pub proof fn law_messages_show_numbers(flags: u16, raw: u32)
    requires
        raw < 0x100_0000,
    ensures
        ends_with_hex((FormatError::ReservedFileFlags(flags)).text(), flags as nat, 4),
        ends_with_hex((FormatError::InvalidMove(raw)).text(), raw as nat, 6),
{
    spelling::law_hexadecimals_have_their_value(flags as nat, 4);
    spelling::law_hexadecimals_have_their_value(raw as nat, 6);
    let a = text::hex(flags as nat, 4);
    let b = text::hex(raw as nat, 6);
    assert(a.len() == 4) by {
        reveal_with_fuel(text::hex, 6);
    }
    assert(b.len() == 6) by {
        reveal_with_fuel(text::hex, 8);
    }
    reveal_strlit("nonzero Wakformat v1 file flags: 0x");
    reveal_strlit("invalid Wakformat v1 move: 0x");
    let s = (FormatError::ReservedFileFlags(flags)).text();
    let t = (FormatError::InvalidMove(raw)).text();
    assert(s.skip(s.len() - 4) =~= a);
    assert(t.skip(t.len() - 6) =~= b);
}

} // verus!
