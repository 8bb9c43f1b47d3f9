//! Moves written by their squares.
use crate::board::Position;
use crate::common::{File, Move, MoveFlag, Piece, Rank, Square};
use crate::notation::{Shape, Written};
use crate::{fen, header, movetext, notation, text};
use vstd::prelude::*;

verus! {

broadcast use crate::common::group_squares;

/// The name of a square.
pub open spec fn square_name(s: Square) -> Seq<char> {
    seq![(97 + s.file.at()) as char, (49 + s.rank.at()) as char]
}

/// The letter of a piece that a pawn becomes.
pub open spec fn promotion_letter(piece: Piece) -> char {
    match piece {
        Piece::Queen => 'Q',
        Piece::Rook => 'R',
        Piece::Bishop => 'B',
        _ => 'N',
    }
}

/// The squares of a move, and what a pawn becomes.
pub open spec fn squares_text(mv: Move) -> Seq<char> {
    let squares = square_name(mv.src) + square_name(mv.dest);
    match mv.flag.becomes() {
        Some(piece) => squares.push('=').push(promotion_letter(piece)),
        None => squares,
    }
}

/// A move written by its squares, such as `e2e4@e3`.
pub open spec fn move_text(mv: Move) -> Seq<char> {
    squares_text(mv).push('@') + square_name(mv.duck)
}

/// What a piece does is clear from where it goes and what a pawn becomes.
proof fn lemma_one_flag(p: Position, s: Square, t: Square, a: MoveFlag, b: MoveFlag)
    requires
        header::rights_fit(p, p.stm),
        p.step(s, t, a),
        p.step(s, t, b),
        a.becomes() == b.becomes(),
    ensures
        a == b,
{
    let m = p.on(s)->0;
    if m.piece == Piece::Pawn {
        assert(p.pawn_step(s, t, a));
        assert(p.pawn_step(s, t, b));
        assert(p.free(t.file.at(), t.rank.at()) ==> p.on(t) is None);
        assert(a.takes() == b.takes());
    } else {
        assert(a.castles() is Some ==> p.color_at(t) == Some(p.stm));
        assert(b.castles() is Some ==> p.color_at(t) == Some(p.stm));
        assert(p.rights(p.stm).short is Some ==> p.rights(p.stm).short != p.rights(p.stm).long);
    }
}

/// The name of a square is read back.
pub proof fn lemma_square_name(s: Square)
    ensures
        fen::square_of(square_name(s)) == Some(s),
        square_name(s).len() == 2,
        movetext::ascii(square_name(s)),
        'a' <= square_name(s)[0] <= 'h',
        '1' <= square_name(s)[1] <= '8',
{
    let n = square_name(s);
    let (f, r) = (s.file.at(), s.rank.at());
    assert(0 <= f < 8 && 0 <= r < 8);
    assert(n[0] as u32 == 97 + f);
    assert(n[1] as u32 == 49 + r);
    assert(File::of(f) == s.file);
    assert(Rank::of(r) == s.rank);
}

pub proof fn lemma_last_of(s: Seq<char>, c: char, i: int)
    requires
        0 <= i < s.len(),
        s[i] == c,
        forall|j: int| i < j < s.len() ==> #[trigger] s[j] != c,
    ensures
        text::last_of(s, c) == Some(i),
    decreases s.len(),
{
    if i < s.len() - 1 {
        assert(s[s.len() - 1] != c);
        lemma_last_of(s.drop_last(), c, i);
    }
}

pub proof fn lemma_not_in(s: Seq<char>, c: char)
    requires
        forall|j: int| 0 <= j < s.len() ==> #[trigger] s[j] != c,
    ensures
        text::last_of(s, c) is None,
    decreases s.len(),
{
    if s.len() > 0 {
        assert(s[s.len() - 1] != c);
        lemma_not_in(s.drop_last(), c);
    }
}

/// The squares of a move are read back.
proof fn lemma_squares_text(mv: Move)
    ensures
        notation::shape_of(squares_text(mv)) == Ok::<Shape, Seq<char>>(
            Shape::Coordinates { src: mv.src, dest: mv.dest, promotion: mv.flag.becomes() },
        ),
        notation::unmarked(squares_text(mv)) == squares_text(mv),
        movetext::ascii(squares_text(mv)),
{
    let t = squares_text(mv);
    let (a, b) = (square_name(mv.src), square_name(mv.dest));
    let squares = a + b;
    lemma_square_name(mv.src);
    lemma_square_name(mv.dest);
    reveal_strlit("O-O");
    reveal_strlit("0-0");
    reveal_strlit("O-O-O");
    reveal_strlit("0-0-0");
    assert(t.len() == 4 || t.len() == 6);
    assert(notation::castling_of(t) is None);
    assert(squares[0] == a[0] && squares[1] == a[1] && squares[2] == b[0] && squares[3] == b[1]);
    assert(squares.take(2) =~= a);
    assert(squares.skip(2) =~= b);
    assert(notation::coordinates_of(squares) == Some((mv.src, mv.dest)));
    match mv.flag.becomes() {
        Some(piece) => {
            let c = promotion_letter(piece);
            assert(t[4] == '=' && t[5] == c);
            lemma_last_of(t, '=', 4);
            assert(t.take(4) =~= squares);
            assert(t.skip(5) =~= seq![c]);
            reveal_strlit("Q");
            reveal_strlit("q");
            reveal_strlit("R");
            reveal_strlit("r");
            reveal_strlit("B");
            reveal_strlit("b");
            reveal_strlit("N");
            reveal_strlit("n");
            assert("Q"@ =~= seq!['Q']);
            assert("R"@ =~= seq!['R']);
            assert("B"@ =~= seq!['B']);
            assert("N"@ =~= seq!['N']);
            assert("Q"@[0] == 'Q' && "q"@[0] == 'q' && "R"@[0] == 'R' && "r"@[0] == 'r' && "B"@[0]
                == 'B' && "b"@[0] == 'b' && "N"@[0] == 'N' && "n"@[0] == 'n');
            assert(seq![c][0] == c);
            assert(notation::promotion_of(seq![c]) == Some(piece));
            assert(t.last() == c);
        },
        None => {
            assert(t =~= squares);
            assert forall|j: int| 0 <= j < t.len() implies #[trigger] t[j] != '=' by {}
            lemma_not_in(t, '=');
            assert(t.last() == b[1]);
        },
    }
}

/// A move written by its squares says where it goes, what a pawn becomes and where the duck goes.
proof fn lemma_move_text(mv: Move)
    ensures
        notation::notation_of(move_text(mv)) == Ok::<Written, Seq<char>>(
            Written {
                text: move_text(mv),
                shape: Shape::Coordinates {
                    src: mv.src,
                    dest: mv.dest,
                    promotion: mv.flag.becomes(),
                },
                duck: Some(mv.duck),
            },
        ),
{
    let t = move_text(mv);
    let s = squares_text(mv);
    let d = square_name(mv.duck);
    lemma_squares_text(mv);
    lemma_square_name(mv.duck);
    let n = s.len() as int;
    assert(t[n] == '@' && t[n + 1] == d[0] && t[n + 2] == d[1]);
    assert(t.len() == n + 3);
    assert(t.last() == d[1]);
    lemma_last_of(t, '@', n);
    assert(t.take(n) =~= s);
    assert(t.skip(n + 1) =~= d);
    assert(movetext::ascii(t)) by {
        assert forall|j: int| 0 <= j < t.len() implies (#[trigger] t[j] as u32) < 128 by {
            if j < n {
                assert(t[j] == s[j]);
            }
        }
    }
}

/// Every legal move can be written by its squares, and is read back from that, if the castling
/// rights fit the men.
pub proof fn law_moves_can_be_written(p: Position, mv: Move)
    requires
        header::rights_fit(p, p.stm),
        p.legal(mv),
    ensures
        notation::meaning(p, move_text(mv)) == Ok::<Move, Seq<char>>(mv),
{
    lemma_move_text(mv);
    let w = notation::notation_of(move_text(mv))->Ok_0;
    assert(notation::answers(p, w, mv));
    assert forall|other: Move| #[trigger] notation::answers(p, w, other) implies other == mv by {
        lemma_one_flag(p, mv.src, mv.dest, mv.flag, other.flag);
    }
    assert(notation::only_answer(p, w, mv));
}

} // verus!
