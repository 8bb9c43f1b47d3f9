//! Duck chess positions and the rules by which they change.
use vstd::prelude::*;

use crate::common::{CastlingDirection, Color, File, Man, Move, MoveFlag, Piece, Rank, Square};

verus! {

broadcast use crate::common::group_squares;

/// The files of the rooks with which one side may still castle.
#[derive(Clone, Copy, Debug, PartialEq, Eq, Structural)]
pub struct CastlingRights {
    pub short: Option<File>,
    pub long: Option<File>,
}

impl CastlingRights {
    /// The right in the direction `dir`.
    pub open spec fn of(self, dir: CastlingDirection) -> Option<File> {
        match dir {
            CastlingDirection::Short => self.short,
            CastlingDirection::Long => self.long,
        }
    }

    /// Whether the rook on `file` may castle.
    pub open spec fn has(self, file: File) -> bool {
        self.short == Some(file) || self.long == Some(file)
    }

    /// The rights that are left when the rook on `file` is gone.
    pub open spec fn less(self, file: File) -> CastlingRights {
        CastlingRights {
            short: if self.short == Some(file) {
                None
            } else {
                self.short
            },
            long: if self.long == Some(file) {
                None
            } else {
                self.long
            },
        }
    }

    /// The right in the direction `dir`.
    pub fn get(self, dir: CastlingDirection) -> (r: Option<File>)
        ensures
            r == self.of(dir),
    {
        match dir {
            CastlingDirection::Short => self.short,
            CastlingDirection::Long => self.long,
        }
    }

    /// Whether the rook on `file` may castle.
    pub fn includes(self, file: File) -> (r: bool)
        ensures
            r == self.has(file),
    {
        let short = match self.short {
            Some(f) => f == file,
            None => false,
        };
        let long = match self.long {
            Some(f) => f == file,
            None => false,
        };
        short || long
    }

    /// The rights that are left when the rook on `file` is gone.
    pub fn without(self, file: File) -> (r: CastlingRights)
        ensures
            r == self.less(file),
    {
        let short = match self.short {
            Some(f) if f == file => None,
            _ => self.short,
        };
        let long = match self.long {
            Some(f) if f == file => None,
            _ => self.long,
        };
        CastlingRights { short, long }
    }
}

/// A position of duck chess.
#[derive(Clone, Copy, Debug, PartialEq, Eq)]
pub struct Board {
    /// What stands on each square, by the number of the square.
    pub squares: [Option<Man>; 64],
    /// The side to move.
    pub stm: Color,
    pub white_castling: CastlingRights,
    pub black_castling: CastlingRights,
    /// The file of the pawn that may be taken in passing.
    pub en_passant: Option<File>,
    /// Where the duck stands.
    pub duck: Option<Square>,
    /// The turns since a pawn moved or something was taken.
    pub hmc: u8,
    /// The number of the turn.
    pub fmc: u16,
}

/// What a position holds.
#[verifier::ext_equal]
pub struct Position {
    pub squares: Seq<Option<Man>>,
    pub stm: Color,
    pub white_castling: CastlingRights,
    pub black_castling: CastlingRights,
    pub en_passant: Option<File>,
    pub duck: Option<Square>,
    pub hmc: u8,
    pub fmc: u16,
}

impl View for Board {
    type V = Position;

    open spec fn view(&self) -> Position {
        Position {
            squares: self.squares@,
            stm: self.stm,
            white_castling: self.white_castling,
            black_castling: self.black_castling,
            en_passant: self.en_passant,
            duck: self.duck,
            hmc: self.hmc,
            fmc: self.fmc,
        }
    }
}

/// Whether `f` and `r` are the positions of a file and a rank.
pub open spec fn on_board(f: int, r: int) -> bool {
    0 <= f < 8 && 0 <= r < 8
}

pub open spec fn abs(d: int) -> int {
    if d < 0 {
        -d
    } else {
        d
    }
}

/// How far `k` steps go along an axis on which the whole way is `d`.
pub open spec fn along(k: int, d: int) -> int {
    if d > 0 {
        k
    } else if d < 0 {
        -k
    } else {
        0
    }
}

/// How many king steps a distance of `dx` files and `dy` ranks takes.
pub open spec fn span(dx: int, dy: int) -> int {
    if abs(dx) > abs(dy) {
        abs(dx)
    } else {
        abs(dy)
    }
}

/// Whether a rook moves `dx` files and `dy` ranks on an empty board.
pub open spec fn straight(dx: int, dy: int) -> bool {
    (dx == 0) != (dy == 0)
}

/// Whether a bishop moves `dx` files and `dy` ranks on an empty board.
pub open spec fn diagonal(dx: int, dy: int) -> bool {
    abs(dx) == abs(dy) && dx != 0
}

/// Whether a man is of the color and of the kind asked for.
pub open spec fn fits(man: Option<Man>, color: Option<Color>, piece: Option<Piece>) -> bool {
    match man {
        Some(m) => (color == None::<Color> || color == Some(m.color)) && (piece == None::<Piece>
            || piece == Some(m.piece)),
        None => false,
    }
}

/// How many of the squares below `n` hold a man of the color and of the kind asked for.
pub open spec fn tally(
    squares: Seq<Option<Man>>,
    color: Option<Color>,
    piece: Option<Piece>,
    n: int,
) -> int
    decreases n,
{
    if n <= 0 {
        0
    } else {
        tally(squares, color, piece, n - 1) + if fits(squares[n - 1], color, piece) {
            1int
        } else {
            0
        }
    }
}

/// A tally counts squares.
pub proof fn lemma_tally_bounds(
    squares: Seq<Option<Man>>,
    color: Option<Color>,
    piece: Option<Piece>,
    n: int,
)
    requires
        0 <= n,
    ensures
        0 <= tally(squares, color, piece, n) <= n,
    decreases n,
{
    if n > 0 {
        lemma_tally_bounds(squares, color, piece, n - 1);
    }
}

/// The first square from number `i` on that holds the king of `color`.
pub open spec fn king_from(squares: Seq<Option<Man>>, color: Color, i: int) -> Option<Square>
    decreases 64 - i,
{
    if i >= 64 || i < 0 {
        None
    } else if squares[i] == Some(Man { color, piece: Piece::King }) {
        Some(Square::of(i))
    } else {
        king_from(squares, color, i + 1)
    }
}

impl Position {
    /// What stands on square `s`.
    pub open spec fn on(self, s: Square) -> Option<Man> {
        self.squares[s.at()]
    }

    /// The color of what stands on square `s`.
    pub open spec fn color_at(self, s: Square) -> Option<Color> {
        match self.on(s) {
            Some(m) => Some(m.color),
            None => None,
        }
    }

    /// What stands at file position `f` and rank position `r`.
    pub open spec fn man(self, f: int, r: int) -> Option<Man> {
        self.squares[8 * r + f]
    }

    /// Whether a square of the board holds neither a man nor the duck.
    pub open spec fn free(self, f: int, r: int) -> bool {
        &&& on_board(f, r)
        &&& self.man(f, r) is None
        &&& !(self.duck matches Some(d) && d.file.at() == f && d.rank.at() == r)
    }

    /// Whether the `k`-th square on the way from `s` to `t` is free.
    pub open spec fn free_on_way(self, s: Square, t: Square, k: int) -> bool {
        self.free(
            s.file.at() + along(k, t.file.at() - s.file.at()),
            s.rank.at() + along(k, t.rank.at() - s.rank.at()),
        )
    }

    /// Whether all squares between `s` and `t` are free.
    pub open spec fn clear(self, s: Square, t: Square) -> bool {
        forall|k: int|
            0 < k < span(t.file.at() - s.file.at(), t.rank.at() - s.rank.at())
                ==> #[trigger] self.free_on_way(s, t, k)
    }

    /// Whether `piece` goes from `s` to `t` in one move, whatever stands on `t`. For pawns, which
    /// move otherwise, this is false.
    pub open spec fn reaches(self, piece: Piece, s: Square, t: Square) -> bool {
        let dx = t.file.at() - s.file.at();
        let dy = t.rank.at() - s.rank.at();
        match piece {
            Piece::Pawn => false,
            Piece::Knight => (abs(dx) == 1 && abs(dy) == 2) || (abs(dx) == 2 && abs(dy) == 1),
            Piece::King => span(dx, dy) == 1,
            Piece::Bishop => diagonal(dx, dy) && self.clear(s, t),
            Piece::Rook => straight(dx, dy) && self.clear(s, t),
            Piece::Queen => (straight(dx, dy) || diagonal(dx, dy)) && self.clear(s, t),
        }
    }

    /// The castling rights of `color`.
    pub open spec fn rights(self, color: Color) -> CastlingRights {
        match color {
            Color::White => self.white_castling,
            Color::Black => self.black_castling,
        }
    }

    /// Whether the pawn on `s` goes to `t` with `flag`.
    pub open spec fn pawn_step(self, s: Square, t: Square, flag: MoveFlag) -> bool {
        let dx = t.file.at() - s.file.at();
        let dy = t.rank.at() - s.rank.at();
        let up = self.stm.forward();
        let last = t.rank.seen_by(self.stm) == 7;
        let takes = self.color_at(t) == Some(self.stm.opposite()) && self.duck != Some(t);
        match flag {
            MoveFlag::Normal => dx == 0 && dy == up && !last && self.free(t.file.at(), t.rank.at()),
            MoveFlag::DoublePush => {
                &&& dx == 0
                &&& dy == 2 * up
                &&& s.rank.seen_by(self.stm) == 1
                &&& self.free(t.file.at(), t.rank.at() - up)
                &&& self.free(t.file.at(), t.rank.at())
            },
            MoveFlag::Capture => abs(dx) == 1 && dy == up && !last && takes,
            MoveFlag::EnPassant => {
                &&& abs(dx) == 1
                &&& dy == up
                &&& self.en_passant == Some(t.file)
                &&& t.rank.seen_by(self.stm) == 5
                &&& self.free(t.file.at(), t.rank.at())
                &&& self.man(t.file.at(), s.rank.at()) == Some(
                    Man { color: self.stm.opposite(), piece: Piece::Pawn },
                )
            },
            _ => {
                &&& flag.becomes() is Some
                &&& dy == up
                &&& last
                &&& if flag.takes() {
                    abs(dx) == 1 && takes
                } else {
                    dx == 0 && self.free(t.file.at(), t.rank.at())
                }
            },
        }
    }

    /// Whether the king on `s` castles with the rook on `t` in the direction `dir`. Every square
    /// that the two pass or end on is free or their own.
    pub open spec fn castle_step(self, s: Square, t: Square, dir: CastlingDirection) -> bool {
        &&& s.rank.seen_by(self.stm) == 0
        &&& t.rank == s.rank
        &&& t.file != s.file
        &&& self.rights(self.stm).of(dir) == Some(t.file)
        &&& self.on(t) == Some(Man { color: self.stm, piece: Piece::Rook })
        &&& forall|f: int|
            castle_low(s, t, dir) <= f <= castle_high(s, t, dir) && f != s.file.at() && f
                != t.file.at() ==> #[trigger] self.free(f, s.rank.at())
    }

    /// Whether the side to move may go from `s` to `t` with `flag`, the duck left aside.
    pub open spec fn step(self, s: Square, t: Square, flag: MoveFlag) -> bool {
        match self.on(s) {
            None => false,
            Some(m) => m.color == self.stm && match flag.castles() {
                Some(dir) => m.piece == Piece::King && self.castle_step(s, t, dir),
                None => if m.piece == Piece::Pawn {
                    self.pawn_step(s, t, flag)
                } else {
                    &&& self.reaches(m.piece, s, t)
                    &&& self.duck != Some(t)
                    &&& if self.on(t) is None {
                        flag == MoveFlag::Normal
                    } else {
                        flag == MoveFlag::Capture && self.color_at(t) == Some(self.stm.opposite())
                    }
                },
            },
        }
    }

    /// What stands where after the piece on `s` went to `t` with `flag`.
    pub open spec fn squares_after(self, s: Square, t: Square, flag: MoveFlag) -> Seq<Option<Man>> {
        match flag.castles() {
            Some(dir) => self.squares.update(s.at(), None).update(t.at(), None).update(
                8 * s.rank.at() + king_goal(dir),
                Some(Man { color: self.stm, piece: Piece::King }),
            ).update(
                8 * s.rank.at() + rook_goal(dir),
                Some(Man { color: self.stm, piece: Piece::Rook }),
            ),
            None => {
                let moved = match flag.becomes() {
                    Some(piece) => Some(Man { color: self.stm, piece }),
                    None => self.on(s),
                };
                let next = self.squares.update(s.at(), None).update(t.at(), moved);
                if flag == MoveFlag::EnPassant {
                    next.update(8 * s.rank.at() + t.file.at(), None)
                } else {
                    next
                }
            },
        }
    }

    /// Whether the duck may go to `d` once the piece on `s` went to `t` with `flag`: to any
    /// empty square but the one it stands on.
    pub open spec fn duck_step(self, s: Square, t: Square, flag: MoveFlag, d: Square) -> bool {
        self.squares_after(s, t, flag)[d.at()] is None && self.duck != Some(d)
    }

    /// Whether `mv` follows the rules in this position. Kings may be left in danger and taken.
    pub open spec fn legal(self, mv: Move) -> bool {
        self.step(mv.src, mv.dest, mv.flag) && self.duck_step(mv.src, mv.dest, mv.flag, mv.duck)
    }

    /// Whether `mv` takes the other side's king.
    pub open spec fn takes_king(self, mv: Move) -> bool {
        self.on(mv.dest) == Some(Man { color: self.stm.opposite(), piece: Piece::King })
    }

    /// The castling rights that `mv` leaves to `color`.
    pub open spec fn rights_after(self, color: Color, mv: Move) -> CastlingRights {
        if color == self.stm {
            if self.on(mv.src) == Some(Man { color, piece: Piece::King }) {
                CastlingRights { short: None, long: None }
            } else if mv.src.rank.seen_by(color) == 0 {
                self.rights(color).less(mv.src.file)
            } else {
                self.rights(color)
            }
        } else if mv.dest.rank.seen_by(color) == 0 {
            self.rights(color).less(mv.dest.file)
        } else {
            self.rights(color)
        }
    }

    /// The position after `mv`.
    pub open spec fn after(self, mv: Move) -> Position {
        let pawn = self.on(mv.src) == Some(Man { color: self.stm, piece: Piece::Pawn });
        Position {
            squares: self.squares_after(mv.src, mv.dest, mv.flag),
            stm: self.stm.opposite(),
            white_castling: self.rights_after(Color::White, mv),
            black_castling: self.rights_after(Color::Black, mv),
            en_passant: if mv.flag == MoveFlag::DoublePush {
                Some(mv.src.file)
            } else {
                None
            },
            duck: Some(mv.duck),
            hmc: if pawn || mv.flag.takes() {
                0
            } else {
                (self.hmc + 1) as u8
            },
            fmc: if self.stm == Color::Black {
                (self.fmc + 1) as u16
            } else {
                self.fmc
            },
        }
    }

    /// Where the king of `color` stands; with more than one, the lowest-numbered square.
    pub open spec fn king(self, color: Color) -> Option<Square> {
        king_from(self.squares, color, 0)
    }

    /// How many men of the color and of the kind asked for are on the board.
    pub open spec fn number(self, color: Option<Color>, piece: Option<Piece>) -> int {
        tally(self.squares, color, piece, 64)
    }
}

/// What stands at file position `f` of a back rank when a game starts.
pub open spec fn start_piece(f: int) -> Piece {
    if f == 0 || f == 7 {
        Piece::Rook
    } else if f == 1 || f == 6 {
        Piece::Knight
    } else if f == 2 || f == 5 {
        Piece::Bishop
    } else if f == 3 {
        Piece::Queen
    } else {
        Piece::King
    }
}

/// The position in which games start.
pub open spec fn start_position() -> Position {
    let rights = CastlingRights { short: Some(File::H), long: Some(File::A) };
    Position {
        squares: Seq::new(
            64,
            |i: int|
                if i < 8 {
                    Some(Man { color: Color::White, piece: start_piece(i % 8) })
                } else if i < 16 {
                    Some(Man { color: Color::White, piece: Piece::Pawn })
                } else if i < 48 {
                    None
                } else if i < 56 {
                    Some(Man { color: Color::Black, piece: Piece::Pawn })
                } else {
                    Some(Man { color: Color::Black, piece: start_piece(i % 8) })
                },
        ),
        stm: Color::White,
        white_castling: rights,
        black_castling: rights,
        en_passant: None,
        duck: None,
        hmc: 0,
        fmc: 1,
    }
}

/// The file position where a castling king ends.
pub open spec fn king_goal(dir: CastlingDirection) -> int {
    match dir {
        CastlingDirection::Short => 6,
        CastlingDirection::Long => 2,
    }
}

/// The file position where a castling rook ends.
pub open spec fn rook_goal(dir: CastlingDirection) -> int {
    match dir {
        CastlingDirection::Short => 5,
        CastlingDirection::Long => 3,
    }
}

pub open spec fn min(a: int, b: int) -> int {
    if a < b {
        a
    } else {
        b
    }
}

pub open spec fn max(a: int, b: int) -> int {
    if a < b {
        b
    } else {
        a
    }
}

/// The leftmost file position that castling touches.
pub open spec fn castle_low(s: Square, t: Square, dir: CastlingDirection) -> int {
    min(min(s.file.at(), t.file.at()), min(king_goal(dir), rook_goal(dir)))
}

/// The rightmost file position that castling touches.
pub open spec fn castle_high(s: Square, t: Square, dir: CastlingDirection) -> int {
    max(max(s.file.at(), t.file.at()), max(king_goal(dir), rook_goal(dir)))
}

/// The file position where a castling king ends.
fn king_goal_file(dir: CastlingDirection) -> (r: usize)
    ensures
        r == king_goal(dir),
{
    match dir {
        CastlingDirection::Short => 6,
        CastlingDirection::Long => 2,
    }
}

/// The file position where a castling rook ends.
fn rook_goal_file(dir: CastlingDirection) -> (r: usize)
    ensures
        r == rook_goal(dir),
{
    match dir {
        CastlingDirection::Short => 5,
        CastlingDirection::Long => 3,
    }
}

fn same_square(a: Option<Square>, b: Square) -> (r: bool)
    ensures
        r == (a == Some(b)),
{
    match a {
        Some(s) => s == b,
        None => false,
    }
}

fn same_man(a: Option<Man>, b: Man) -> (r: bool)
    ensures
        r == (a == Some(b)),
{
    match a {
        Some(m) => m == b,
        None => false,
    }
}

fn distance(a: i32, b: i32) -> (r: i32)
    requires
        0 <= a < 8,
        0 <= b < 8,
    ensures
        r == abs(b - a),
{
    if b < a {
        a - b
    } else {
        b - a
    }
}

impl Board {
    /// The position in which games start. The duck is not on the board yet.
    pub fn startpos() -> (r: Board)
        ensures
            r@ == start_position(),
    {
        let mut squares: [Option<Man>; 64] = [None; 64];
        let mut i: usize = 0;
        while i < 8
            invariant
                i <= 8,
                forall|j: int|
                    0 <= j < 64 && j % 8 < i ==> #[trigger] squares@[j]
                        == start_position().squares[j],
                forall|j: int| 0 <= j < 64 && j % 8 >= i ==> #[trigger] squares@[j] is None,
            decreases 8 - i,
        {
            let piece = if i == 0 || i == 7 {
                Piece::Rook
            } else if i == 1 || i == 6 {
                Piece::Knight
            } else if i == 2 || i == 5 {
                Piece::Bishop
            } else if i == 3 {
                Piece::Queen
            } else {
                Piece::King
            };
            squares[i] = Some(Man { color: Color::White, piece });
            squares[8 + i] = Some(Man { color: Color::White, piece: Piece::Pawn });
            squares[48 + i] = Some(Man { color: Color::Black, piece: Piece::Pawn });
            squares[56 + i] = Some(Man { color: Color::Black, piece });
            i += 1;
        }
        assert(squares@ =~= start_position().squares);
        let rights = CastlingRights { short: Some(File::H), long: Some(File::A) };
        Board {
            squares,
            stm: Color::White,
            white_castling: rights,
            black_castling: rights,
            en_passant: None,
            duck: None,
            hmc: 0,
            fmc: 1,
        }
    }

    /// What stands on square `s`.
    pub fn man_on(&self, s: Square) -> (r: Option<Man>)
        ensures
            r == self@.on(s),
    {
        self.squares[s.position()]
    }

    /// The kind of piece on square `s`.
    pub fn piece_on(&self, s: Square) -> (r: Option<Piece>)
        ensures
            r == match self@.on(s) {
                Some(m) => Some(m.piece),
                None => None,
            },
    {
        match self.man_on(s) {
            Some(m) => Some(m.piece),
            None => None,
        }
    }

    /// The color of what stands on square `s`.
    pub fn color_on(&self, s: Square) -> (r: Option<Color>)
        ensures
            r == self@.color_at(s),
    {
        match self.man_on(s) {
            Some(m) => Some(m.color),
            None => None,
        }
    }

    /// Whether `man` stands on square `s`.
    pub fn holds(&self, s: Square, man: Man) -> (r: bool)
        ensures
            r == (self@.on(s) == Some(man)),
    {
        same_man(self.man_on(s), man)
    }

    /// The castling rights of `color`.
    pub fn castling_rights(&self, color: Color) -> (r: CastlingRights)
        ensures
            r == self@.rights(color),
    {
        match color {
            Color::White => self.white_castling,
            Color::Black => self.black_castling,
        }
    }

    /// How many men of the color and of the kind asked for are on the board.
    pub fn count(&self, color: Option<Color>, piece: Option<Piece>) -> (r: usize)
        ensures
            r == self@.number(color, piece),
            r <= 64,
    {
        let mut n: usize = 0;
        let mut i: usize = 0;
        while i < 64
            invariant
                i <= 64,
                n == tally(self.squares@, color, piece, i as int),
                n <= i,
            decreases 64 - i,
        {
            let found = match self.squares[i] {
                Some(m) => (match color {
                    Some(c) => c == m.color,
                    None => true,
                }) && (match piece {
                    Some(p) => p == m.piece,
                    None => true,
                }),
                None => false,
            };
            if found {
                n += 1;
            }
            i += 1;
        }
        n
    }

    /// Where the king of `color` stands; with more than one, the lowest-numbered square.
    pub fn try_king(&self, color: Color) -> (r: Option<Square>)
        ensures
            r == self@.king(color),
            r matches Some(s) ==> self@.on(s) == Some(Man { color, piece: Piece::King }),
    {
        let mut i: usize = 0;
        while i < 64
            invariant
                i <= 64,
                king_from(self.squares@, color, 0) == king_from(self.squares@, color, i as int),
            decreases 64 - i,
        {
            if same_man(self.squares[i], Man { color, piece: Piece::King }) {
                return Some(Square::index(i));
            }
            i += 1;
        }
        None
    }

    fn is_free(&self, s: Square) -> (r: bool)
        ensures
            r == self@.free(s.file.at(), s.rank.at()),
    {
        match self.man_on(s) {
            Some(_) => false,
            None => !same_square(self.duck, s),
        }
    }

    fn is_free_at(&self, f: i32, r: i32) -> (b: bool)
        requires
            on_board(f as int, r as int),
        ensures
            b == self@.free(f as int, r as int),
    {
        self.is_free(Square::new(File::index(f as usize), Rank::index(r as usize)))
    }

    /// Whether all squares between `s` and `t`, on one line, are free.
    fn is_clear(&self, s: Square, t: Square) -> (b: bool)
        requires
            straight(t.file.at() - s.file.at(), t.rank.at() - s.rank.at()) || diagonal(
                t.file.at() - s.file.at(),
                t.rank.at() - s.rank.at(),
            ),
        ensures
            b == self@.clear(s, t),
    {
        let sf = s.file.position() as i32;
        let sr = s.rank.position() as i32;
        let tf = t.file.position() as i32;
        let tr = t.rank.position() as i32;
        let dx = distance(sf, tf);
        let dy = distance(sr, tr);
        let n = if dx > dy {
            dx
        } else {
            dy
        };
        let mut f = sf;
        let mut r = sr;
        let mut k: i32 = 1;
        while k < n
            invariant
                sf == s.file.at(),
                sr == s.rank.at(),
                tf == t.file.at(),
                tr == t.rank.at(),
                n == span(tf - sf, tr - sr),
                straight(tf - sf, tr - sr) || diagonal(tf - sf, tr - sr),
                1 <= k <= n,
                f == sf + along(k - 1, tf - sf),
                r == sr + along(k - 1, tr - sr),
                forall|j: int| 0 < j < k ==> #[trigger] self@.free_on_way(s, t, j),
            decreases n - k,
        {
            if tf > sf {
                f += 1;
            } else if tf < sf {
                f -= 1;
            }
            if tr > sr {
                r += 1;
            } else if tr < sr {
                r -= 1;
            }
            if !self.is_free_at(f, r) {
                assert(!self@.free_on_way(s, t, k as int));
                return false;
            }
            assert(self@.free_on_way(s, t, k as int));
            k += 1;
        }
        true
    }

    /// Whether `piece` goes from `s` to `t` in one move, whatever stands on `t`.
    fn can_reach(&self, piece: Piece, s: Square, t: Square) -> (b: bool)
        ensures
            b == self@.reaches(piece, s, t),
    {
        let dx = distance(s.file.position() as i32, t.file.position() as i32);
        let dy = distance(s.rank.position() as i32, t.rank.position() as i32);
        let line = (dx == 0) != (dy == 0);
        let slant = dx == dy && dx != 0;
        match piece {
            Piece::Pawn => false,
            Piece::Knight => (dx == 1 && dy == 2) || (dx == 2 && dy == 1),
            Piece::King => dx <= 1 && dy <= 1 && (dx == 1 || dy == 1),
            Piece::Bishop => slant && self.is_clear(s, t),
            Piece::Rook => line && self.is_clear(s, t),
            Piece::Queen => (line || slant) && self.is_clear(s, t),
        }
    }

    /// Whether the pawn on `s` goes to `t` with `flag`.
    fn can_step_pawn(&self, s: Square, t: Square, flag: MoveFlag) -> (b: bool)
        ensures
            b == self@.pawn_step(s, t, flag),
    {
        let dx = distance(s.file.position() as i32, t.file.position() as i32);
        let dy = t.rank.position() as i32 - s.rank.position() as i32;
        let up: i32 = match self.stm {
            Color::White => 1,
            Color::Black => -1,
        };
        let seen_s = s.rank.relative_to(self.stm);
        let seen_t = t.rank.relative_to(self.stm);
        let last = seen_t.position() == 7;
        let takes = match self.color_on(t) {
            Some(c) => c != self.stm && !same_square(self.duck, t),
            None => false,
        };
        match flag {
            MoveFlag::Normal => dx == 0 && dy == up && !last && self.is_free(t),
            MoveFlag::DoublePush => dx == 0 && dy == 2 * up && seen_s.position() == 1
                && self.is_free_at(t.file.position() as i32, t.rank.position() as i32 - up)
                && self.is_free(t),
            MoveFlag::Capture => dx == 1 && dy == up && !last && takes,
            MoveFlag::EnPassant => dx == 1 && dy == up && (match self.en_passant {
                Some(f) => f == t.file,
                None => false,
            }) && seen_t.position() == 5 && self.is_free(t) && self.holds(
                Square::new(t.file, s.rank),
                Man { color: self.stm.other(), piece: Piece::Pawn },
            ),
            _ => match flag.promotion() {
                Some(_) => dy == up && last && if flag.is_capture() {
                    dx == 1 && takes
                } else {
                    dx == 0 && self.is_free(t)
                },
                None => false,
            },
        }
    }

    /// Whether the king on `s` castles with the rook on `t` in the direction `dir`.
    fn can_castle(&self, s: Square, t: Square, dir: CastlingDirection) -> (b: bool)
        ensures
            b == self@.castle_step(s, t, dir),
    {
        let back = s.rank.relative_to(self.stm);
        let right = match self.castling_rights(self.stm).get(dir) {
            Some(f) => f == t.file,
            None => false,
        };
        if back.position() != 0 || t.rank != s.rank || t.file == s.file || !right || !self.holds(
            t,
            Man { color: self.stm, piece: Piece::Rook },
        ) {
            return false;
        }
        let sf = s.file.position();
        let tf = t.file.position();
        let k = king_goal_file(dir);
        let r = rook_goal_file(dir);
        let low_men = if sf < tf { sf } else { tf };
        let low_goals = if k < r { k } else { r };
        let low = if low_men < low_goals { low_men } else { low_goals };
        let high_men = if sf < tf { tf } else { sf };
        let high_goals = if k < r { r } else { k };
        let high = if high_men < high_goals { high_goals } else { high_men };
        let mut f = low;
        while f <= high
            invariant
                sf == s.file.at(),
                tf == t.file.at(),
                low == castle_low(s, t, dir),
                high == castle_high(s, t, dir),
                high < 8,
                low <= f <= high + 1,
                forall|g: int|
                    low <= g < f && g != sf && g != tf ==> #[trigger] self@.free(g, s.rank.at()),
            decreases high + 1 - f,
        {
            if f != sf && f != tf && !self.is_free(Square::new(File::index(f), s.rank)) {
                assert(!self@.free(f as int, s.rank.at()));
                return false;
            }
            f += 1;
        }
        true
    }

    /// Whether the side to move may go from `s` to `t` with `flag`, the duck left aside.
    pub fn can_step(&self, s: Square, t: Square, flag: MoveFlag) -> (b: bool)
        ensures
            b == self@.step(s, t, flag),
    {
        match self.man_on(s) {
            None => false,
            Some(m) => m.color == self.stm && match flag.castling_dir() {
                Some(dir) => m.piece == Piece::King && self.can_castle(s, t, dir),
                None => if m.piece == Piece::Pawn {
                    self.can_step_pawn(s, t, flag)
                } else {
                    !same_square(self.duck, t) && (match self.color_on(t) {
                        None => flag == MoveFlag::Normal,
                        Some(c) => flag == MoveFlag::Capture && c != self.stm,
                    }) && self.can_reach(m.piece, s, t)
                },
            },
        }
    }

    /// What stands where after the piece on `s` went to `t` with `flag`.
    fn move_men(&self, s: Square, t: Square, flag: MoveFlag) -> (next: [Option<Man>; 64])
        ensures
            next@ == self@.squares_after(s, t, flag),
    {
        let mut next = self.squares;
        match flag.castling_dir() {
            Some(dir) => {
                let king = Man { color: self.stm, piece: Piece::King };
                let rook = Man { color: self.stm, piece: Piece::Rook };
                next[s.position()] = None;
                next[t.position()] = None;
                next[8 * s.rank.position() + king_goal_file(dir)] = Some(king);
                next[8 * s.rank.position() + rook_goal_file(dir)] = Some(rook);
            },
            None => {
                let moved = match flag.promotion() {
                    Some(piece) => Some(Man { color: self.stm, piece }),
                    None => self.man_on(s),
                };
                next[s.position()] = None;
                next[t.position()] = moved;
                if flag == MoveFlag::EnPassant {
                    next[8 * s.rank.position() + t.file.position()] = None;
                }
            },
        }
        next
    }

    /// Whether the duck may go to `d` once the piece on `s` went to `t` with `flag`.
    pub fn can_place_duck(&self, s: Square, t: Square, flag: MoveFlag, d: Square) -> (b: bool)
        ensures
            b == self@.duck_step(s, t, flag, d),
    {
        let next = self.move_men(s, t, flag);
        match next[d.position()] {
            Some(_) => false,
            None => !same_square(self.duck, d),
        }
    }

    /// Whether `mv` follows the rules in this position.
    pub fn is_legal(&self, mv: Move) -> (b: bool)
        ensures
            b == self@.legal(mv),
    {
        self.can_step(mv.src, mv.dest, mv.flag) && self.can_place_duck(
            mv.src,
            mv.dest,
            mv.flag,
            mv.duck,
        )
    }

    /// Whether `mv` takes the other side's king.
    pub fn is_king_capture(&self, mv: Move) -> (b: bool)
        ensures
            b == self@.takes_king(mv),
    {
        self.holds(mv.dest, Man { color: self.stm.other(), piece: Piece::King })
    }

    /// The castling rights that `mv` leaves to `color`.
    fn castling_after(&self, color: Color, mv: Move) -> (r: CastlingRights)
        ensures
            r == self@.rights_after(color, mv),
    {
        let rights = self.castling_rights(color);
        if color == self.stm {
            let back = mv.src.rank.relative_to(color);
            if self.holds(mv.src, Man { color, piece: Piece::King }) {
                CastlingRights { short: None, long: None }
            } else if back.position() == 0 {
                rights.without(mv.src.file)
            } else {
                rights
            }
        } else {
            let back = mv.dest.rank.relative_to(color);
            if back.position() == 0 {
                rights.without(mv.dest.file)
            } else {
                rights
            }
        }
    }

    /// Makes the move `mv`.
    pub fn make_move(&mut self, mv: Move)
        requires
            old(self).hmc < u8::MAX,
            old(self).stm == Color::Black ==> old(self).fmc < u16::MAX,
        ensures
            final(self)@ == old(self)@.after(mv),
    {
        let pawn = self.holds(mv.src, Man { color: self.stm, piece: Piece::Pawn });
        let squares = self.move_men(mv.src, mv.dest, mv.flag);
        let white_castling = self.castling_after(Color::White, mv);
        let black_castling = self.castling_after(Color::Black, mv);
        let hmc = if pawn || mv.flag.is_capture() {
            0
        } else {
            self.hmc + 1
        };
        let fmc = match self.stm {
            Color::Black => self.fmc + 1,
            Color::White => self.fmc,
        };
        let en_passant = if mv.flag == MoveFlag::DoublePush {
            Some(mv.src.file)
        } else {
            None
        };
        *self =
        Board {
            squares,
            stm: self.stm.other(),
            white_castling,
            black_castling,
            en_passant,
            duck: Some(mv.duck),
            hmc,
            fmc,
        };
    }
}

} // verus!
