//! Moves written in short algebraic notation.
use crate::board::Position;
use crate::common::{CastlingDirection, File, Move, MoveFlag, Piece, Rank, Square};
use crate::notation::{Origin, Shape, Written};
use crate::{coordinates, fen, moves, movetext, notation, text};
use vstd::prelude::*;

verus! {

broadcast use crate::common::group_squares;

/// The letter of a piece. A pawn has none.
pub open spec fn letter(piece: Piece) -> Seq<char> {
    match piece {
        Piece::King => seq!['K'],
        Piece::Queen => seq!['Q'],
        Piece::Rook => seq!['R'],
        Piece::Bishop => seq!['B'],
        Piece::Knight => seq!['N'],
        Piece::Pawn => seq![],
    }
}

/// The letter of a file.
pub open spec fn file_letter(f: File) -> char {
    match f {
        File::A => 'a',
        File::B => 'b',
        File::C => 'c',
        File::D => 'd',
        File::E => 'e',
        File::F => 'f',
        File::G => 'g',
        File::H => 'h',
    }
}

/// The digit of a rank.
pub open spec fn rank_digit(r: Rank) -> char {
    match r {
        Rank::First => '1',
        Rank::Second => '2',
        Rank::Third => '3',
        Rank::Fourth => '4',
        Rank::Fifth => '5',
        Rank::Sixth => '6',
        Rank::Seventh => '7',
        Rank::Eighth => '8',
    }
}

/// The name of a square.
pub open spec fn name(s: Square) -> Seq<char> {
    seq![file_letter(s.file), rank_digit(s.rank)]
}

/// What is written between the letter and the destination: the file and the rank from which the
/// piece comes, if they are given, and `x` if it takes.
#[verifier::opaque]
pub open spec fn hints(src: Square, with_file: bool, with_rank: bool, takes: bool) -> Seq<char> {
    let file: Seq<char> = if with_file {
        seq![file_letter(src.file)]
    } else {
        seq![]
    };
    let rank: Seq<char> = if with_rank {
        seq![rank_digit(src.rank)]
    } else {
        seq![]
    };
    let x: Seq<char> = if takes {
        seq!['x']
    } else {
        seq![]
    };
    file + rank + x
}

/// What a pawn becomes, written behind the move.
pub open spec fn promotion_text(flag: MoveFlag) -> Seq<char> {
    match flag {
        MoveFlag::PromotionQueen | MoveFlag::CapturePromotionQueen => seq!['=', 'Q'],
        MoveFlag::PromotionRook | MoveFlag::CapturePromotionRook => seq!['=', 'R'],
        MoveFlag::PromotionBishop | MoveFlag::CapturePromotionBishop => seq!['=', 'B'],
        MoveFlag::PromotionKnight | MoveFlag::CapturePromotionKnight => seq!['=', 'N'],
        _ => seq![],
    }
}

/// Whether a flag is one of those of captures.
pub open spec fn captures(flag: MoveFlag) -> bool {
    match flag {
        MoveFlag::Capture | MoveFlag::EnPassant | MoveFlag::CapturePromotionQueen
        | MoveFlag::CapturePromotionRook | MoveFlag::CapturePromotionBishop
        | MoveFlag::CapturePromotionKnight => true,
        _ => false,
    }
}

/// A move of a piece as it is written, such as `Nbxd7`, the duck left aside.
pub open spec fn piece_text(
    piece: Piece,
    mv: Move,
    with_file: bool,
    with_rank: bool,
) -> Seq<char> {
    letter(piece) + hints(mv.src, with_file, with_rank, captures(mv.flag)) + name(mv.dest)
        + promotion_text(mv.flag)
}

/// A text with the square of the duck behind it.
pub open spec fn with_duck(s: Seq<char>, duck: Square) -> Seq<char> {
    s + seq!['@'] + name(duck)
}

pub proof fn lemma_name(s: Square)
    ensures
        name(s) == coordinates::square_name(s),
{
    assert(name(s) =~= coordinates::square_name(s)) by {
        assert(coordinates::square_name(s)[0] == file_letter(s.file));
        assert(coordinates::square_name(s)[1] == rank_digit(s.rank));
    }
    coordinates::lemma_square_name(s);
}

proof fn lemma_hint_chars(src: Square)
    ensures
        'a' <= file_letter(src.file) <= 'h',
        '1' <= rank_digit(src.rank) <= '8',
        File::of(file_letter(src.file) as u32 - 97) == src.file,
        Rank::of(rank_digit(src.rank) as u32 - 49) == src.rank,
{
}

/// The hints are read back.
proof fn lemma_hints(
    prefix: Seq<char>,
    start: int,
    src: Square,
    with_file: bool,
    with_rank: bool,
    takes: bool,
)
    requires
        0 <= start <= prefix.len(),
        prefix.skip(start) == hints(src, with_file, with_rank, takes),
    ensures
        notation::origin_from(
            prefix,
            start,
            Origin { capture: false, file: None, rank: None },
        ) == Some(
            Origin {
                capture: takes,
                file: if with_file {
                    Some(src.file)
                } else {
                    None
                },
                rank: if with_rank {
                    Some(src.rank)
                } else {
                    None
                },
            },
        ),
{
    lemma_hint_chars(src);
    reveal(hints);
    let h = hints(src, with_file, with_rank, takes);
    let n = h.len() as int;
    assert(prefix.len() == start + n);
    assert forall|k: int| 0 <= k < n implies #[trigger] prefix[start + k] == h[k] by {
        assert(prefix.skip(start)[k] == prefix[start + k]);
    }
    reveal_with_fuel(notation::origin_from, 5);
    let a = if with_file {
        1int
    } else {
        0
    };
    let b = if with_rank {
        a + 1
    } else {
        a
    };
    if with_file {
        assert(h[0] == file_letter(src.file));
        assert(prefix[start + 0] == h[0]);
    }
    if with_rank {
        assert(h[a] == rank_digit(src.rank));
        assert(prefix[start + a] == h[a]);
    }
    if takes {
        assert(h[b] == 'x');
        assert(prefix[start + b] == h[b]);
    }
}

/// Whether a move is written by two squares alone.
spec fn by_squares(piece: Piece, mv: Move, with_file: bool, with_rank: bool) -> bool {
    piece == Piece::Pawn && with_file && with_rank && !captures(mv.flag)
}

/// Whether a character may stand in a move of a piece, the duck and the promotion left aside.
spec fn plain_char(c: char) -> bool {
    ||| c == 'K' || c == 'Q' || c == 'R' || c == 'B' || c == 'N' || c == 'x'
    ||| 'a' <= c <= 'h'
    ||| '1' <= c <= '8'
}

/// The move without the promotion.
spec fn base_text(piece: Piece, mv: Move, with_file: bool, with_rank: bool) -> Seq<char> {
    letter(piece) + hints(mv.src, with_file, with_rank, captures(mv.flag)) + name(mv.dest)
}

/// What the move of a piece says.
spec fn said(piece: Piece, mv: Move, with_file: bool, with_rank: bool) -> Shape {
    if by_squares(piece, mv, with_file, with_rank) {
        Shape::Coordinates { src: mv.src, dest: mv.dest, promotion: mv.flag.becomes() }
    } else {
        Shape::Piece {
            piece,
            dest: mv.dest,
            capture: captures(mv.flag),
            promotion: mv.flag.becomes(),
            file: if with_file {
                Some(mv.src.file)
            } else {
                None
            },
            rank: if with_rank {
                Some(mv.src.rank)
            } else {
                None
            },
        }
    }
}

/// The characters of the hints.
proof fn lemma_hint_values(src: Square, with_file: bool, with_rank: bool, takes: bool)
    ensures
        ({
            let h = hints(src, with_file, with_rank, takes);
            &&& forall|k: int|
                0 <= k < h.len() ==> {
                    ||| #[trigger] h[k] == 'x'
                    ||| 'a' <= h[k] <= 'h'
                    ||| '1' <= h[k] <= '8'
                }
            &&& h.len() == 2 && !(with_file && with_rank) ==> h[1] == 'x'
            &&& h.len() == 2 && with_file && with_rank ==> !takes
            &&& with_file && with_rank && !takes ==> h == name(src)
        }),
{
    reveal(hints);
    lemma_hint_chars(src);
    let h = hints(src, with_file, with_rank, takes);
    if with_file && with_rank && !takes {
        assert(h =~= name(src));
    }
}

proof fn lemma_base_chars(piece: Piece, mv: Move, with_file: bool, with_rank: bool)
    ensures
        ({
            let b = base_text(piece, mv, with_file, with_rank);
            &&& b.len() == letter(piece).len() + hints(
                mv.src,
                with_file,
                with_rank,
                captures(mv.flag),
            ).len() + 2
            &&& forall|j: int| 0 <= j < b.len() ==> plain_char(#[trigger] b[j])
            &&& '1' <= b.last() <= '8'
        }),
{
    let b = base_text(piece, mv, with_file, with_rank);
    let l = letter(piece);
    let h = hints(mv.src, with_file, with_rank, captures(mv.flag));
    let d = name(mv.dest);
    lemma_hint_values(mv.src, with_file, with_rank, captures(mv.flag));
    lemma_hint_chars(mv.dest);
    lemma_three_parts(l, h, d);
}

proof fn lemma_three_parts(l: Seq<char>, h: Seq<char>, d: Seq<char>)
    requires
        l.len() <= 1,
        l.len() > 0 ==> plain_char(l[0]),
        forall|k: int| 0 <= k < h.len() ==> plain_char(#[trigger] h[k]),
        d.len() == 2,
        'a' <= d[0] <= 'h',
        '1' <= d[1] <= '8',
    ensures
        ({
            let b = l + h + d;
            &&& b.len() == l.len() + h.len() + 2
            &&& forall|j: int| 0 <= j < b.len() ==> plain_char(#[trigger] b[j])
            &&& b.last() == d[1]
            &&& b.skip(b.len() - 2) == d
            &&& b.take(b.len() - 2) == l + h
            &&& (l + h).skip(l.len() as int) == h
        }),
{
    let b = l + h + d;
    let n = (l.len() + h.len()) as int;
    assert(b.skip(n) =~= d);
    assert(b.take(n) =~= l + h);
    assert((l + h).skip(l.len() as int) =~= h);
}

proof fn lemma_base(piece: Piece, mv: Move, with_file: bool, with_rank: bool)
    ensures
        notation::plain_shape(
            base_text(piece, mv, with_file, with_rank),
            mv.flag.becomes(),
        ) == Ok::<Shape, Seq<char>>(said(piece, mv, with_file, with_rank)),
{
    let b = base_text(piece, mv, with_file, with_rank);
    let l = letter(piece);
    let h = hints(mv.src, with_file, with_rank, captures(mv.flag));
    let d = name(mv.dest);
    let n = b.len() as int;
    lemma_hint_values(mv.src, with_file, with_rank, captures(mv.flag));
    lemma_hint_chars(mv.dest);
    lemma_three_parts(l, h, d);
    lemma_name(mv.src);
    lemma_name(mv.dest);
    coordinates::lemma_square_name(mv.src);
    coordinates::lemma_square_name(mv.dest);
    let prefix = l + h;
    lemma_hints(prefix, l.len() as int, mv.src, with_file, with_rank, captures(mv.flag));
    if by_squares(piece, mv, with_file, with_rank) {
        assert(b.take(2) =~= name(mv.src));
        assert(b.skip(2) =~= d);
    } else {
        assert(notation::piece_of(prefix) == piece) by {
            if piece == Piece::Pawn {
                if h.len() > 0 {
                    assert(prefix[0] == h[0]);
                }
            } else {
                assert(prefix[0] == l[0]);
            }
        }
        if n == 4 {
            lemma_no_coordinates(l, h, d);
        }
    }
}

proof fn lemma_no_coordinates(l: Seq<char>, h: Seq<char>, d: Seq<char>)
    requires
        l.len() + h.len() == 2,
        d.len() == 2,
        l.len() > 0 ==> 'A' <= l[0] <= 'Z',
        h.len() == 2 ==> h[1] == 'x',
    ensures
        notation::coordinates_of(l + h + d) is None,
{
    let b = l + h + d;
    let two = b.take(2);
    assert(two[0] == b[0] && two[1] == b[1]);
    if l.len() > 0 {
        assert(b[0] == l[0]);
    } else {
        assert(b[1] == h[1]);
    }
}

proof fn lemma_one_letter(c: char)
    ensures
        c == 'Q' ==> notation::promotion_of(seq![c]) == Some(Piece::Queen),
        c == 'R' ==> notation::promotion_of(seq![c]) == Some(Piece::Rook),
        c == 'B' ==> notation::promotion_of(seq![c]) == Some(Piece::Bishop),
        c == 'N' ==> notation::promotion_of(seq![c]) == Some(Piece::Knight),
{
    reveal_strlit("Q");
    reveal_strlit("q");
    reveal_strlit("R");
    reveal_strlit("r");
    reveal_strlit("B");
    reveal_strlit("b");
    reveal_strlit("N");
    reveal_strlit("n");
    assert("Q"@ =~= seq!['Q']);
    assert("R"@ =~= seq!['R']);
    assert("B"@ =~= seq!['B']);
    assert("N"@ =~= seq!['N']);
    assert("Q"@[0] == 'Q' && "q"@[0] == 'q' && "R"@[0] == 'R' && "r"@[0] == 'r' && "B"@[0] == 'B'
        && "b"@[0] == 'b' && "N"@[0] == 'N' && "n"@[0] == 'n');
    assert(seq![c][0] == c);
}

proof fn lemma_piece_text(piece: Piece, mv: Move, with_file: bool, with_rank: bool)
    ensures
        ({
            let t = piece_text(piece, mv, with_file, with_rank);
            &&& notation::shape_of(t) == Ok::<Shape, Seq<char>>(
                said(piece, mv, with_file, with_rank),
            )
            &&& notation::unmarked(t) == t
            &&& movetext::ascii(t)
            &&& text::last_of(t, '@') is None
            &&& t.len() > 0
        }),
{
    let t = piece_text(piece, mv, with_file, with_rank);
    let b = base_text(piece, mv, with_file, with_rank);
    let e = promotion_text(mv.flag);
    let n = b.len() as int;
    lemma_base_chars(piece, mv, with_file, with_rank);
    lemma_base(piece, mv, with_file, with_rank);
    assert(t =~= b + e);
    reveal_strlit("O-O");
    reveal_strlit("0-0");
    reveal_strlit("O-O-O");
    reveal_strlit("0-0-0");
    assert forall|j: int| 0 <= j < n implies t[j] == #[trigger] b[j] by {}
    if e.len() == 0 {
        assert(t =~= b);
        assert forall|j: int| 0 <= j < t.len() implies #[trigger] t[j] != '=' by {
            assert(plain_char(b[j]));
        }
        coordinates::lemma_not_in(t, '=');
        assert(mv.flag.becomes() is None);
    } else {
        assert(t[n] == '=' && t[n + 1] == e[1]);
        coordinates::lemma_last_of(t, '=', n);
        assert(t.skip(n + 1) =~= seq![e[1]]);
        assert(t.take(n) =~= b);
        lemma_one_letter(e[1]);
        assert(notation::promotion_of(seq![e[1]]) == mv.flag.becomes());
    }
    let last = t.last();
    assert('1' <= last <= '8' || last == 'Q' || last == 'R' || last == 'B' || last == 'N');
    assert("O-O"@[2] == 'O' && "0-0"@[2] == '0' && "O-O-O"@[4] == 'O' && "0-0-0"@[4] == '0');
    assert(notation::castling_of(t) is None);
    assert forall|j: int| 0 <= j < t.len() implies (#[trigger] t[j] as u32) < 128 && t[j] != '@' by {
        if j < n {
            assert(plain_char(b[j]));
        }
    }
    coordinates::lemma_not_in(t, '@');
}

/// A text without the duck is read, with the duck behind it or without.
proof fn lemma_with_duck(t: Seq<char>, duck: Square)
    requires
        notation::unmarked(t) == t,
        movetext::ascii(t),
        text::last_of(t, '@') is None,
        notation::shape_of(t) is Ok,
    ensures
        notation::notation_of(t) == Ok::<Written, Seq<char>>(
            Written { text: t, shape: notation::shape_of(t)->Ok_0, duck: None },
        ),
        notation::notation_of(with_duck(t, duck)) == Ok::<Written, Seq<char>>(
            Written {
                text: with_duck(t, duck),
                shape: notation::shape_of(t)->Ok_0,
                duck: Some(duck),
            },
        ),
{
    let u = with_duck(t, duck);
    let d = name(duck);
    let n = t.len() as int;
    lemma_name(duck);
    lemma_hint_chars(duck);
    coordinates::lemma_square_name(duck);
    assert(u[n] == '@' && u[n + 1] == d[0] && u[n + 2] == d[1]);
    assert(u.len() == n + 3);
    assert(u.last() == d[1]);
    coordinates::lemma_last_of(u, '@', n);
    assert(u.take(n) =~= t);
    assert(u.skip(n + 1) =~= d);
    assert(movetext::ascii(u)) by {
        assert forall|j: int| 0 <= j < u.len() implies (#[trigger] u[j] as u32) < 128 by {
            if j < n {
                assert(u[j] == t[j]);
            }
        }
    }
}

/// Whether `other` could be meant where `mv` is, by the same piece, destination, capture and
/// promotion, and by the file and rank as far as they are given.
pub open spec fn alike(
    p: Position,
    mv: Move,
    other: Move,
    with_file: bool,
    with_rank: bool,
) -> bool {
    &&& p.on(other.src) == p.on(mv.src)
    &&& other.dest == mv.dest
    &&& captures(other.flag) == captures(mv.flag)
    &&& promotion_text(other.flag) == promotion_text(mv.flag)
    &&& with_file ==> other.src.file == mv.src.file
    &&& with_rank ==> other.src.rank == mv.src.rank
}

proof fn lemma_flag(p: Position, s: Square, t: Square, a: MoveFlag, b: MoveFlag)
    requires
        p.step(s, t, a),
        p.step(s, t, b),
        a.becomes() == b.becomes(),
        a.castles() is None,
        b.castles() is None,
    ensures
        a == b,
{
    assert(p.free(t.file.at(), t.rank.at()) ==> p.on(t) is None);
}

proof fn lemma_promotions(a: MoveFlag, b: MoveFlag)
    requires
        a.becomes() == b.becomes(),
    ensures
        promotion_text(a) == promotion_text(b),
        captures(a) == a.takes(),
{
}

/// Every legal move that does not castle can be written by the letter of its piece, its
/// destination, what a pawn becomes and the square of the duck, with `x` if it takes, and with the
/// file and the rank from which it comes as far as another move could be meant without them. It is
/// read back from that.
pub proof fn law_moves_can_be_written_short(
    p: Position,
    mv: Move,
    with_file: bool,
    with_rank: bool,
)
    requires
        p.legal(mv),
        mv.flag != MoveFlag::ShortCastling,
        mv.flag != MoveFlag::LongCastling,
        forall|other: Move| #[trigger]
            p.legal(other) && other.flag != MoveFlag::ShortCastling && other.flag
                != MoveFlag::LongCastling && other.duck == mv.duck && alike(
                p,
                mv,
                other,
                with_file,
                with_rank,
            ) ==> other == mv,
    ensures
        ({
            let piece = p.on(mv.src)->0.piece;
            notation::meaning(
                p,
                with_duck(piece_text(piece, mv, with_file, with_rank), mv.duck),
            ) == Ok::<Move, Seq<char>>(mv)
        }),
{
    let piece = p.on(mv.src)->0.piece;
    let t = piece_text(piece, mv, with_file, with_rank);
    lemma_piece_text(piece, mv, with_file, with_rank);
    lemma_with_duck(t, mv.duck);
    let w = notation::notation_of(with_duck(t, mv.duck))->Ok_0;
    lemma_promotions(mv.flag, mv.flag);
    assert(notation::answers(p, w, mv));
    assert forall|other: Move| #[trigger] notation::answers(p, w, other) implies other == mv by {
        if by_squares(piece, mv, with_file, with_rank) {
            assert(other.src == mv.src && other.dest == mv.dest);
            assert(other.flag.castles() is None);
            lemma_flag(p, mv.src, mv.dest, mv.flag, other.flag);
        } else {
            lemma_promotions(other.flag, mv.flag);
            lemma_promotions(mv.flag, other.flag);
            assert(p.on(other.src)->0.color == p.stm && p.on(mv.src)->0.color == p.stm);
            assert(alike(p, mv, other, with_file, with_rank));
            assert(p.legal(other));
        }
    }
    assert(notation::only_answer(p, w, mv));
}

/// With the file and the rank from which it comes, every legal move that does not castle is read
/// back.
pub proof fn law_moves_can_be_written_in_full(p: Position, mv: Move)
    requires
        p.legal(mv),
        mv.flag != MoveFlag::ShortCastling,
        mv.flag != MoveFlag::LongCastling,
    ensures
        ({
            let piece = p.on(mv.src)->0.piece;
            notation::meaning(p, with_duck(piece_text(piece, mv, true, true), mv.duck)) == Ok::<
                Move,
                Seq<char>,
            >(mv)
        }),
{
    assert forall|other: Move| #[trigger]
        p.legal(other) && other.flag != MoveFlag::ShortCastling && other.flag
            != MoveFlag::LongCastling && other.duck == mv.duck && alike(
            p,
            mv,
            other,
            true,
            true,
        ) implies other == mv by {
        lemma_promotion_text(other.flag, mv.flag);
        lemma_flag(p, mv.src, mv.dest, mv.flag, other.flag);
    }
    law_moves_can_be_written_short(p, mv, true, true);
}

proof fn lemma_promotion_text(a: MoveFlag, b: MoveFlag)
    requires
        promotion_text(a) == promotion_text(b),
    ensures
        a.becomes() == b.becomes(),
{
    let (x, y) = (promotion_text(a), promotion_text(b));
    if x.len() > 0 {
        assert(x[1] == y[1]);
    }
}

/// A text by which two legal moves may be meant is refused.
pub proof fn law_ambiguous_moves_are_refused(
    p: Position,
    mv: Move,
    other: Move,
    with_file: bool,
    with_rank: bool,
)
    requires
        p.legal(mv),
        p.legal(other),
        mv != other,
        mv.duck == other.duck,
        mv.flag != MoveFlag::ShortCastling,
        mv.flag != MoveFlag::LongCastling,
        other.flag != MoveFlag::ShortCastling,
        other.flag != MoveFlag::LongCastling,
        alike(p, mv, other, with_file, with_rank),
    ensures
        ({
            let s = with_duck(
                piece_text(p.on(mv.src)->0.piece, mv, with_file, with_rank),
                mv.duck,
            );
            notation::meaning(p, s) == Err::<Move, Seq<char>>("ambiguous move "@ + s)
        }),
{
    let piece = p.on(mv.src)->0.piece;
    let t = piece_text(piece, mv, with_file, with_rank);
    lemma_piece_text(piece, mv, with_file, with_rank);
    lemma_with_duck(t, mv.duck);
    let w = notation::notation_of(with_duck(t, mv.duck))->Ok_0;
    lemma_promotion_text(other.flag, mv.flag);
    lemma_promotions(mv.flag, other.flag);
    lemma_promotions(other.flag, mv.flag);
    assert(notation::answers(p, w, mv));
    assert(notation::answers(p, w, other));
}

/// The text of a castling.
pub open spec fn castling_text(dir: CastlingDirection) -> Seq<char> {
    match dir {
        CastlingDirection::Short => seq!['O', '-', 'O'],
        CastlingDirection::Long => seq!['O', '-', 'O', '-', 'O'],
    }
}

/// The flag of a castling.
pub open spec fn castling_flag(dir: CastlingDirection) -> MoveFlag {
    match dir {
        CastlingDirection::Short => MoveFlag::ShortCastling,
        CastlingDirection::Long => MoveFlag::LongCastling,
    }
}

/// A legal castling of the only king is written `O-O` or `O-O-O` with the square of the duck, and is
/// read back from that.
pub proof fn law_castling_can_be_written(p: Position, mv: Move, dir: CastlingDirection)
    requires
        p.squares.len() == 64,
        p.legal(mv),
        mv.flag == castling_flag(dir),
        p.number(Some(p.stm), Some(Piece::King)) == 1,
    ensures
        notation::meaning(p, with_duck(castling_text(dir), mv.duck)) == Ok::<Move, Seq<char>>(mv),
{
    let t = castling_text(dir);
    lemma_castling_texts();
    assert(t.last() == 'O');
    assert forall|j: int| 0 <= j < t.len() implies (#[trigger] t[j] as u32) < 128 && t[j] != '@' by {}
    lemma_castling(p, mv, dir, t);
}

/// The text of a castling with zeros.
pub open spec fn zeros_text(dir: CastlingDirection) -> Seq<char> {
    match dir {
        CastlingDirection::Short => seq!['0', '-', '0'],
        CastlingDirection::Long => seq!['0', '-', '0', '-', '0'],
    }
}

/// Castling may as well be written with zeros.
pub proof fn law_castling_can_be_written_with_zeros(p: Position, mv: Move, dir: CastlingDirection)
    requires
        p.squares.len() == 64,
        p.legal(mv),
        mv.flag == castling_flag(dir),
        p.number(Some(p.stm), Some(Piece::King)) == 1,
    ensures
        notation::meaning(p, with_duck(zeros_text(dir), mv.duck)) == Ok::<Move, Seq<char>>(mv),
{
    let t = zeros_text(dir);
    lemma_castling_texts();
    assert(t.last() == '0');
    assert forall|j: int| 0 <= j < t.len() implies (#[trigger] t[j] as u32) < 128 && t[j] != '@' by {}
    lemma_castling(p, mv, dir, t);
}

proof fn lemma_castling_texts()
    ensures
        notation::castling_of(castling_text(CastlingDirection::Short)) == Some(
            CastlingDirection::Short,
        ),
        notation::castling_of(castling_text(CastlingDirection::Long)) == Some(
            CastlingDirection::Long,
        ),
        notation::castling_of(zeros_text(CastlingDirection::Short)) == Some(
            CastlingDirection::Short,
        ),
        notation::castling_of(zeros_text(CastlingDirection::Long)) == Some(CastlingDirection::Long),
{
    reveal_strlit("O-O");
    reveal_strlit("0-0");
    reveal_strlit("O-O-O");
    reveal_strlit("0-0-0");
    assert("O-O"@ =~= castling_text(CastlingDirection::Short));
    assert("O-O-O"@ =~= castling_text(CastlingDirection::Long));
    assert("0-0"@ =~= zeros_text(CastlingDirection::Short));
    assert("0-0-0"@ =~= zeros_text(CastlingDirection::Long));
    assert("O-O"@.len() == 3 && "0-0"@.len() == 3);
}

proof fn lemma_castling(p: Position, mv: Move, dir: CastlingDirection, t: Seq<char>)
    requires
        p.squares.len() == 64,
        p.legal(mv),
        mv.flag == castling_flag(dir),
        p.number(Some(p.stm), Some(Piece::King)) == 1,
        notation::castling_of(t) == Some(dir),
        t.len() > 0,
        !notation::is_mark(t.last()),
        forall|j: int| 0 <= j < t.len() ==> (#[trigger] t[j] as u32) < 128 && t[j] != '@',
    ensures
        notation::meaning(p, with_duck(t, mv.duck)) == Ok::<Move, Seq<char>>(mv),
{
    coordinates::lemma_not_in(t, '@');
    lemma_with_duck(t, mv.duck);
    let w = notation::notation_of(with_duck(t, mv.duck))->Ok_0;
    assert(notation::answers(p, w, mv));
    assert forall|other: Move| #[trigger] notation::answers(p, w, other) implies other == mv by {
        assert(other.flag == mv.flag);
        moves::lemma_only_king(p.squares, p.stm, mv.src.at(), other.src.at());
        assert(Square::of(mv.src.at()) == mv.src && Square::of(other.src.at()) == other.src);
    }
    assert(notation::only_answer(p, w, mv));
}

/// The duck may be left out when the king is taken, and then counts as going to the square that the
/// piece has left; and only then.
pub proof fn law_duck_may_be_left_out(p: Position, mv: Move)
    requires
        p.legal(mv),
        mv.flag != MoveFlag::ShortCastling,
        mv.flag != MoveFlag::LongCastling,
    ensures
        ({
            let m = p.on(mv.src)->0;
            let taken = p.on(mv.dest);
            let king = taken is Some && taken->0.piece == Piece::King;
            let r = notation::meaning(p, piece_text(m.piece, mv, true, true));
            &&& king && mv.duck == mv.src ==> r == Ok::<Move, Seq<char>>(mv)
            &&& !king ==> r is Err
        }),
{
    let piece = p.on(mv.src)->0.piece;
    let t = piece_text(piece, mv, true, true);
    lemma_piece_text(piece, mv, true, true);
    lemma_with_duck(t, mv.duck);
    lemma_promotions(mv.flag, mv.flag);
    let w = notation::notation_of(t)->Ok_0;
    let taken = p.on(mv.dest);
    let king = taken is Some && taken->0.piece == Piece::King;
    assert(taken is Some ==> taken->0.color == p.stm.opposite());
    assert forall|other: Move| #[trigger] notation::answers(p, w, other) implies king && other.src
        == mv.src && other.dest == mv.dest && other.flag == mv.flag && other.duck == mv.src by {
        lemma_promotions(other.flag, mv.flag);
        assert(other.src == mv.src && other.dest == mv.dest);
        assert(other.flag.castles() is None);
        lemma_flag(p, mv.src, mv.dest, mv.flag, other.flag);
    }
    if king && mv.duck == mv.src {
        assert(notation::answers(p, w, mv));
        assert(notation::only_answer(p, w, mv));
    }
}

/// Marks behind a move do not matter.
pub proof fn law_marks_do_not_matter(p: Position, s: Seq<char>, mark: char)
    requires
        mark == '+' || mark == '#' || mark == '!' || mark == '?',
    ensures
        notation::meaning(p, s.push(mark)) == notation::meaning(p, s),
{
    let t = s.push(mark);
    assert(t.drop_last() =~= s);
    assert(t.last() == mark);
    assert(movetext::ascii(t) == movetext::ascii(s)) by {
        if movetext::ascii(t) {
            assert forall|j: int| 0 <= j < s.len() implies (#[trigger] s[j] as u32) < 128 by {
                assert(t[j] == s[j]);
            }
        }
        if movetext::ascii(s) {
            assert forall|j: int| 0 <= j < t.len() implies (#[trigger] t[j] as u32) < 128 by {
                if j < s.len() {
                    assert(t[j] == s[j]);
                }
            }
        }
    }
}

/// What a text means is a legal move.
pub proof fn law_meaning_is_legal(p: Position, s: Seq<char>)
    requires
        notation::meaning(p, s) is Ok,
    ensures
        p.legal(notation::meaning(p, s)->Ok_0),
{
    let w = notation::notation_of(s)->Ok_0;
    let mv = notation::meaning(p, s)->Ok_0;
    assert(notation::only_answer(p, w, mv));
    assert(notation::answers(p, w, mv));
}

/// What is written of a move without the duck and without marks.
spec fn bare(s: Seq<char>) -> Seq<char> {
    let t = notation::unmarked(s);
    match text::last_of(t, '@') {
        Some(i) => notation::unmarked(t.take(i)),
        None => t,
    }
}

/// Marks stand behind the rest.
proof fn lemma_unmarked(s: Seq<char>)
    ensures
        notation::unmarked(s).len() <= s.len(),
        notation::unmarked(s) == s.take(notation::unmarked(s).len() as int),
        forall|j: int|
            notation::unmarked(s).len() <= j < s.len() ==> notation::is_mark(#[trigger] s[j]),
    decreases s.len(),
{
    if s.len() > 0 && notation::is_mark(s.last()) {
        let t = s.drop_last();
        lemma_unmarked(t);
        let n = notation::unmarked(s).len() as int;
        assert(t.take(n) =~= s.take(n));
        assert forall|j: int| n <= j < s.len() implies notation::is_mark(#[trigger] s[j]) by {
            if j < t.len() {
                assert(t[j] == s[j]);
            }
        }
    } else {
        assert(s.take(s.len() as int) =~= s);
    }
}

proof fn lemma_found_last(s: Seq<char>, c: char)
    ensures
        text::last_of(s, c) matches Some(i) ==> 0 <= i < s.len() && s[i] == c,
        text::last_of(s, c) is Some <==> s.contains(c),
    decreases s.len(),
{
    if s.len() > 0 {
        let t = s.drop_last();
        lemma_found_last(t, c);
        assert(s[s.len() - 1] == s.last());
        if t.contains(c) {
            let j = choose|j: int| 0 <= j < t.len() && t[j] == c;
            assert(s[j] == c);
        }
        if s.contains(c) && s.last() != c {
            let j = choose|j: int| 0 <= j < s.len() && s[j] == c;
            assert(t[j] == c);
        }
    }
}

/// The signs of a capture and of a promotion stand in what is written of the move itself.
proof fn lemma_bare(s: Seq<char>, c: char)
    requires
        notation::notation_of(s) is Ok,
        c == 'x' || c == '=',
    ensures
        notation::shape_of(bare(s)) == Ok::<Shape, Seq<char>>(notation::notation_of(s)->Ok_0.shape),
        bare(s).len() <= s.len(),
        bare(s) == s.take(bare(s).len() as int),
        s.contains(c) <==> bare(s).contains(c),
{
    let t = notation::unmarked(s);
    let k = bare(s);
    lemma_unmarked(s);
    lemma_found_last(t, '@');
    match text::last_of(t, '@') {
        Some(i) => {
            let u = t.take(i);
            let d = t.skip(i + 1);
            lemma_unmarked(u);
            let n = k.len() as int;
            assert(u.take(n) =~= s.take(n));
            if s.contains(c) {
                let j = choose|j: int| 0 <= j < s.len() && s[j] == c;
                assert(j < t.len());
                assert(t[j] == c);
                if j > i {
                    assert(d[j - i - 1] == c);
                    assert(d.len() == 2);
                    assert(d[0] == c || d[1] == c);
                }
                assert(j < i);
                assert(u[j] == c);
                assert(j < n);
                assert(k[j] == c);
            }
        },
        None => {
            if s.contains(c) {
                let j = choose|j: int| 0 <= j < s.len() && s[j] == c;
                assert(j < t.len());
                assert(k[j] == c);
            }
        },
    }
    if k.contains(c) {
        let j = choose|j: int| 0 <= j < k.len() && k[j] == c;
        assert(s[j] == c);
    }
}

/// The sign of a capture tells a capture.
proof fn lemma_origin_captures(s: Seq<char>, i: int, o: Origin)
    requires
        0 <= i <= s.len(),
        notation::origin_from(s, i, o) is Some,
    ensures
        notation::origin_from(s, i, o)->0.capture <==> o.capture || exists|j: int|
            i <= j < s.len() && #[trigger] s[j] == 'x',
    decreases s.len() - i,
{
    if i < s.len() {
        let n = if s[i] == 'x' && !o.capture {
            Origin { capture: true, ..o }
        } else if 'a' <= s[i] <= 'h' && o.file is None {
            Origin { file: Some(File::of(s[i] as u32 - 97)), ..o }
        } else {
            Origin { rank: Some(Rank::of(s[i] as u32 - 49)), ..o }
        };
        lemma_origin_captures(s, i + 1, n);
        if exists|j: int| i <= j < s.len() && #[trigger] s[j] == 'x' {
            let j = choose|j: int| i <= j < s.len() && #[trigger] s[j] == 'x';
            if j > i {
                assert(i + 1 <= j < s.len() && s[j] == 'x');
            }
        }
    }
}

/// What is written of a piece tells whether it takes.
proof fn lemma_piece_captures(s: Seq<char>, promotion: Option<Piece>)
    requires
        notation::piece_shape(s, promotion) is Ok,
    ensures
        notation::piece_shape(s, promotion)->Ok_0 matches Shape::Piece { capture, promotion: b, .. }
            && capture == s.contains('x') && b == promotion,
{
    let n = s.len() - 2;
    let prefix = s.take(n);
    let dest = s.skip(n);
    let start = if notation::piece_of(prefix) == Piece::Pawn {
        0int
    } else {
        1
    };
    let none = Origin { capture: false, file: None, rank: None };
    lemma_origin_captures(prefix, start, none);
    if s.contains('x') {
        let j = choose|j: int| 0 <= j < s.len() && s[j] == 'x';
        if j >= n {
            assert(dest[j - n] == 'x');
            assert(dest[0] == 'x' || dest[1] == 'x');
        }
        assert(prefix[j] == 'x');
        assert(start <= j < prefix.len());
    }
    if exists|j: int| start <= j < prefix.len() && #[trigger] prefix[j] == 'x' {
        let j = choose|j: int| start <= j < prefix.len() && #[trigger] prefix[j] == 'x';
        assert(s[j] == 'x');
    }
}

/// What is written of a move tells whether it takes, unless it is written by its squares.
proof fn lemma_plain_captures(s: Seq<char>, promotion: Option<Piece>)
    requires
        notation::plain_shape(s, promotion) is Ok,
    ensures
        match notation::plain_shape(s, promotion)->Ok_0 {
            Shape::Castling(_) => false,
            Shape::Coordinates { src, dest, promotion: b } => {
                &&& b == promotion
                &&& !s.contains('x')
                &&& s == name(src) + name(dest)
            },
            Shape::Piece { capture, promotion: b, .. } => capture == s.contains('x') && b
                == promotion,
        },
{
    match notation::coordinates_of(s) {
        Some((src, dest)) => {
            lemma_square_read(s.take(2));
            lemma_square_read(s.skip(2));
            assert(s =~= s.take(2) + s.skip(2));
            if s.contains('x') {
                let j = choose|j: int| 0 <= j < s.len() && s[j] == 'x';
                assert(s[0] == s.take(2)[0] && s[1] == s.take(2)[1]);
                assert(s[2] == s.skip(2)[0] && s[3] == s.skip(2)[1]);
            }
        },
        None => {
            lemma_piece_captures(s, promotion);
        },
    }
}

/// A square is read from its name.
pub proof fn lemma_square_read(s: Seq<char>)
    requires
        fen::square_of(s) is Some,
    ensures
        s == name(fen::square_of(s)->0),
{
    let q = fen::square_of(s)->0;
    assert(s[0] == file_letter(q.file));
    assert(s[1] == rank_digit(q.rank));
    assert(s =~= name(q));
}

/// What is written is what is meant: a move written with `x` takes, a move that takes is written with
/// `x` or by its two squares, and a move is written with `=` if and only if it promotes a pawn.
pub proof fn law_meaning_is_what_is_written(p: Position, s: Seq<char>)
    requires
        notation::meaning(p, s) is Ok,
    ensures
        ({
            let mv = notation::meaning(p, s)->Ok_0;
            &&& s.contains('x') ==> captures(mv.flag)
            &&& captures(mv.flag) && !s.contains('x') ==> s.len() >= 4 && s.take(4) == name(mv.src)
                + name(mv.dest)
            &&& s.contains('=') <==> promotion_text(mv.flag).len() > 0
        }),
{
    let w = notation::notation_of(s)->Ok_0;
    let mv = notation::meaning(p, s)->Ok_0;
    assert(notation::only_answer(p, w, mv));
    assert(notation::answers(p, w, mv));
    let k = bare(s);
    lemma_bare(s, 'x');
    lemma_bare(s, '=');
    lemma_said(k);
    lemma_flag_says(mv.flag);
    if k.len() >= 4 {
        assert(k.take(4) =~= s.take(4));
    }
}

proof fn lemma_flag_says(flag: MoveFlag)
    ensures
        flag.takes() == captures(flag),
        flag.becomes() is Some <==> promotion_text(flag).len() > 0,
        flag.castles() is Some ==> !captures(flag) && flag.becomes() is None,
{
}

/// What is written of a move tells whether it takes and whether it promotes.
proof fn lemma_said(k: Seq<char>)
    requires
        notation::shape_of(k) is Ok,
    ensures
        match notation::shape_of(k)->Ok_0 {
            Shape::Castling(_) => !k.contains('x') && !k.contains('='),
            Shape::Coordinates { src, dest, promotion } => {
                &&& !k.contains('x')
                &&& promotion is Some <==> k.contains('=')
                &&& k.len() >= 4
                &&& k.take(4) == name(src) + name(dest)
            },
            Shape::Piece { capture, promotion, .. } => {
                &&& capture == k.contains('x')
                &&& promotion is Some <==> k.contains('=')
            },
        },
{
    lemma_found_last(k, '=');
    match notation::castling_of(k) {
        Some(dir) => {
            lemma_castling_says(k);
        },
        None => match text::last_of(k, '=') {
            Some(i) => {
                let rest = k.skip(i + 1);
                let u = k.take(i);
                lemma_plain_captures(u, notation::promotion_of(rest));
                lemma_promotion_letters(rest);
                if k.contains('x') {
                    let j = choose|j: int| 0 <= j < k.len() && k[j] == 'x';
                    if j > i {
                        assert(rest[j - i - 1] == 'x');
                    }
                    assert(u[j] == 'x');
                }
                if u.contains('x') {
                    let j = choose|j: int| 0 <= j < u.len() && u[j] == 'x';
                    assert(k[j] == 'x');
                }
                if u.len() == 4 {
                    assert(u =~= k.take(4));
                }
            },
            None => {
                lemma_plain_captures(k, None);
                if k.len() == 4 {
                    assert(k =~= k.take(4));
                }
            },
        },
    }
}

proof fn lemma_castling_says(k: Seq<char>)
    requires
        notation::castling_of(k) is Some,
    ensures
        !k.contains('x'),
        !k.contains('='),
{
    reveal_strlit("O-O");
    reveal_strlit("0-0");
    reveal_strlit("O-O-O");
    reveal_strlit("0-0-0");
}

proof fn lemma_promotion_letters(s: Seq<char>)
    requires
        notation::promotion_of(s) is Some,
    ensures
        s.len() == 1,
        s[0] != 'x',
{
    reveal_strlit("Q");
    reveal_strlit("q");
    reveal_strlit("R");
    reveal_strlit("r");
    reveal_strlit("B");
    reveal_strlit("b");
    reveal_strlit("N");
    reveal_strlit("n");
}

/// Marks in front of the duck do not matter either.
pub proof fn law_marks_before_the_duck(p: Position, s: Seq<char>, mark: char, duck: Square)
    requires
        mark == '+' || mark == '#' || mark == '!' || mark == '?',
    ensures
        ({
            let a = notation::meaning(p, with_duck(s.push(mark), duck));
            let b = notation::meaning(p, with_duck(s, duck));
            (a is Ok <==> b is Ok) && (a is Ok ==> a->Ok_0 == b->Ok_0)
        }),
{
    let t = s.push(mark);
    assert(t.drop_last() =~= s);
    assert(t.last() == mark);
    assert(notation::unmarked(t) == notation::unmarked(s));
    let (x, y) = (with_duck(t, duck), with_duck(s, duck));
    lemma_behind_duck(t, duck);
    lemma_behind_duck(s, duck);
    assert(movetext::ascii(t) == movetext::ascii(s)) by {
        if movetext::ascii(t) {
            assert forall|j: int| 0 <= j < s.len() implies (#[trigger] s[j] as u32) < 128 by {
                assert(t[j] == s[j]);
            }
        }
        if movetext::ascii(s) {
            assert forall|j: int| 0 <= j < t.len() implies (#[trigger] t[j] as u32) < 128 by {
                if j < s.len() {
                    assert(t[j] == s[j]);
                }
            }
        }
    }
    if notation::notation_of(x) is Ok {
        let v = notation::notation_of(x)->Ok_0;
        let w = notation::notation_of(y)->Ok_0;
        lemma_same_answers(p, v, w);
        lemma_same_answers(p, w, v);
    }
}

/// Texts that say the same of the move and the duck have the same meaning.
proof fn lemma_same_answers(p: Position, v: Written, w: Written)
    requires
        v.shape == w.shape,
        v.duck == w.duck,
    ensures
        forall|mv: Move| #[trigger]
            notation::only_answer(p, v, mv) ==> notation::only_answer(p, w, mv),
{
    assert forall|mv: Move| #[trigger] notation::only_answer(p, v, mv) implies
        notation::only_answer(p, w, mv) by {
        assert(notation::answers(p, v, mv));
        assert forall|other: Move| #[trigger] notation::answers(p, w, other) implies other == mv by {
            assert(notation::answers(p, v, other));
        }
    }
}

/// What a text with a duck behind it says.
proof fn lemma_behind_duck(t: Seq<char>, duck: Square)
    ensures
        movetext::ascii(with_duck(t, duck)) == movetext::ascii(t),
        notation::notation_of(with_duck(t, duck)) == if !movetext::ascii(t) {
            Err("non-ASCII move"@)
        } else {
            match notation::shape_of(notation::unmarked(t)) {
                Ok(shape) => Ok(Written { text: with_duck(t, duck), shape, duck: Some(duck) }),
                Err(m) => Err(m),
            }
        },
{
    let u = with_duck(t, duck);
    let d = name(duck);
    let n = t.len() as int;
    lemma_name(duck);
    lemma_hint_chars(duck);
    coordinates::lemma_square_name(duck);
    assert(u[n] == '@' && u[n + 1] == d[0] && u[n + 2] == d[1]);
    assert(u.len() == n + 3);
    assert(u.last() == d[1]);
    coordinates::lemma_last_of(u, '@', n);
    assert(u.take(n) =~= t);
    assert(u.skip(n + 1) =~= d);
    if movetext::ascii(t) {
        assert forall|j: int| 0 <= j < u.len() implies (#[trigger] u[j] as u32) < 128 by {
            if j < n {
                assert(u[j] == t[j]);
            }
        }
    }
    if movetext::ascii(u) {
        assert forall|j: int| 0 <= j < t.len() implies (#[trigger] t[j] as u32) < 128 by {
            assert(u[j] == t[j]);
        }
    }
}

/// The small letter of a piece to which a pawn is promoted.
pub open spec fn small(c: char) -> char {
    match c {
        'Q' => 'q',
        'R' => 'r',
        'B' => 'b',
        'N' => 'n',
        _ => c,
    }
}

/// The piece to which a pawn is promoted may as well be written with a small letter.
pub proof fn law_promotions_may_be_small(s: Seq<char>, c: char)
    requires
        c == 'Q' || c == 'R' || c == 'B' || c == 'N',
    ensures
        notation::shape_of(s + seq!['=', small(c)]) == notation::shape_of(s + seq!['=', c]),
{
    lemma_promoted(s, c);
    lemma_promoted(s, small(c));
    lemma_one_letter(c);
    lemma_one_small_letter(small(c));
}

proof fn lemma_one_small_letter(c: char)
    ensures
        c == 'q' ==> notation::promotion_of(seq![c]) == Some(Piece::Queen),
        c == 'r' ==> notation::promotion_of(seq![c]) == Some(Piece::Rook),
        c == 'b' ==> notation::promotion_of(seq![c]) == Some(Piece::Bishop),
        c == 'n' ==> notation::promotion_of(seq![c]) == Some(Piece::Knight),
{
    reveal_strlit("Q");
    reveal_strlit("q");
    reveal_strlit("R");
    reveal_strlit("r");
    reveal_strlit("B");
    reveal_strlit("b");
    reveal_strlit("N");
    reveal_strlit("n");
    assert("q"@ =~= seq!['q']);
    assert("r"@ =~= seq!['r']);
    assert("b"@ =~= seq!['b']);
    assert("n"@ =~= seq!['n']);
    assert("Q"@[0] == 'Q' && "q"@[0] == 'q' && "R"@[0] == 'R' && "r"@[0] == 'r' && "B"@[0] == 'B'
        && "b"@[0] == 'b' && "N"@[0] == 'N' && "n"@[0] == 'n');
    assert(seq![c][0] == c);
}

proof fn lemma_promoted(s: Seq<char>, c: char)
    requires
        c != '=',
    ensures
        notation::shape_of(s + seq!['=', c]) == match notation::promotion_of(seq![c]) {
            Some(piece) => notation::plain_shape(s, Some(piece)),
            None => Err("invalid promotion"@),
        },
{
    let t = s + seq!['=', c];
    let n = s.len() as int;
    reveal_strlit("O-O");
    reveal_strlit("0-0");
    reveal_strlit("O-O-O");
    reveal_strlit("0-0-0");
    assert(t[n] == '=' && t[n + 1] == c && t.len() == n + 2);
    coordinates::lemma_last_of(t, '=', n);
    assert(t.take(n) =~= s);
    assert(t.skip(n + 1) =~= seq![c]);
}

} // verus!
