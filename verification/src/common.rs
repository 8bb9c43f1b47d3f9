//! Squares, pieces and moves.
use vstd::prelude::*;

verus! {

/// One of the two sides.
#[derive(Clone, Copy, Debug, PartialEq, Eq, Structural)]
pub enum Color {
    White,
    Black,
}

impl Color {
    /// The number that stands for the color in packed data.
    pub open spec fn number(self) -> int {
        match self {
            Color::White => 0,
            Color::Black => 1,
        }
    }

    /// The other side.
    pub open spec fn opposite(self) -> Color {
        match self {
            Color::White => Color::Black,
            Color::Black => Color::White,
        }
    }

    /// The direction in which the side's pawns move, in ranks.
    pub open spec fn forward(self) -> int {
        match self {
            Color::White => 1,
            Color::Black => -1,
        }
    }

    /// The other side.
    pub fn other(self) -> (r: Color)
        ensures
            r == self.opposite(),
    {
        match self {
            Color::White => Color::Black,
            Color::Black => Color::White,
        }
    }

    /// The number that stands for the color in packed data.
    pub fn code(self) -> (r: u8)
        ensures
            r == self.number(),
    {
        match self {
            Color::White => 0,
            Color::Black => 1,
        }
    }
}

/// A kind of chess piece.
#[derive(Clone, Copy, Debug, PartialEq, Eq, Structural)]
pub enum Piece {
    Pawn,
    Knight,
    Bishop,
    Rook,
    Queen,
    King,
}

impl Piece {
    /// The number that stands for the piece in packed data.
    pub open spec fn number(self) -> int {
        match self {
            Piece::Pawn => 0,
            Piece::Knight => 1,
            Piece::Bishop => 2,
            Piece::Rook => 3,
            Piece::Queen => 4,
            Piece::King => 5,
        }
    }

    /// The number that stands for the piece in packed data.
    pub fn code(self) -> (r: u8)
        ensures
            r == self.number(),
    {
        match self {
            Piece::Pawn => 0,
            Piece::Knight => 1,
            Piece::Bishop => 2,
            Piece::Rook => 3,
            Piece::Queen => 4,
            Piece::King => 5,
        }
    }
}

/// A piece of one side.
#[derive(Clone, Copy, Debug, PartialEq, Eq, Structural)]
pub struct Man {
    pub color: Color,
    pub piece: Piece,
}


/// A file of the board.
#[derive(Clone, Copy, Debug, PartialEq, Eq, Structural)]
pub enum File {
    A,
    B,
    C,
    D,
    E,
    F,
    G,
    H,
}

impl File {
    /// The position of the file on the board, from 0 to 7.
    pub open spec fn at(self) -> int {
        match self {
            File::A => 0,
            File::B => 1,
            File::C => 2,
            File::D => 3,
            File::E => 4,
            File::F => 5,
            File::G => 6,
            File::H => 7,
        }
    }

    /// The file at position `i`.
    pub open spec fn of(i: int) -> File {
        if i == 0 {
            File::A
        } else if i == 1 {
            File::B
        } else if i == 2 {
            File::C
        } else if i == 3 {
            File::D
        } else if i == 4 {
            File::E
        } else if i == 5 {
            File::F
        } else if i == 6 {
            File::G
        } else {
            File::H
        }
    }

    /// The file at position `i`.
    pub fn index(i: usize) -> (r: File)
        requires
            i < 8,
        ensures
            r == File::of(i as int),
            r.at() == i,
    {
        match i {
            0 => File::A,
            1 => File::B,
            2 => File::C,
            3 => File::D,
            4 => File::E,
            5 => File::F,
            6 => File::G,
            _ => File::H,
        }
    }

    /// The position of the file on the board.
    pub fn position(self) -> (r: usize)
        ensures
            r == self.at(),
            r < 8,
    {
        match self {
            File::A => 0,
            File::B => 1,
            File::C => 2,
            File::D => 3,
            File::E => 4,
            File::F => 5,
            File::G => 6,
            File::H => 7,
        }
    }
}

/// A rank of the board.
#[derive(Clone, Copy, Debug, PartialEq, Eq, Structural)]
pub enum Rank {
    First,
    Second,
    Third,
    Fourth,
    Fifth,
    Sixth,
    Seventh,
    Eighth,
}

impl Rank {
    /// The position of the rank on the board, from 0 to 7.
    pub open spec fn at(self) -> int {
        match self {
            Rank::First => 0,
            Rank::Second => 1,
            Rank::Third => 2,
            Rank::Fourth => 3,
            Rank::Fifth => 4,
            Rank::Sixth => 5,
            Rank::Seventh => 6,
            Rank::Eighth => 7,
        }
    }

    /// The rank at position `i`.
    pub open spec fn of(i: int) -> Rank {
        if i == 0 {
            Rank::First
        } else if i == 1 {
            Rank::Second
        } else if i == 2 {
            Rank::Third
        } else if i == 3 {
            Rank::Fourth
        } else if i == 4 {
            Rank::Fifth
        } else if i == 5 {
            Rank::Sixth
        } else if i == 6 {
            Rank::Seventh
        } else {
            Rank::Eighth
        }
    }

    /// The rank at position `i`.
    pub fn index(i: usize) -> (r: Rank)
        requires
            i < 8,
        ensures
            r == Rank::of(i as int),
            r.at() == i,
    {
        match i {
            0 => Rank::First,
            1 => Rank::Second,
            2 => Rank::Third,
            3 => Rank::Fourth,
            4 => Rank::Fifth,
            5 => Rank::Sixth,
            6 => Rank::Seventh,
            _ => Rank::Eighth,
        }
    }

    /// The position of the rank on the board.
    pub fn position(self) -> (r: usize)
        ensures
            r == self.at(),
            r < 8,
    {
        match self {
            Rank::First => 0,
            Rank::Second => 1,
            Rank::Third => 2,
            Rank::Fourth => 3,
            Rank::Fifth => 4,
            Rank::Sixth => 5,
            Rank::Seventh => 6,
            Rank::Eighth => 7,
        }
    }

    /// The position of the rank as the side `color` sees it.
    pub open spec fn seen_by(self, color: Color) -> int {
        relative(self.at(), color)
    }

    /// The rank that the side `color` sees as this one.
    pub fn relative_to(self, color: Color) -> (r: Rank)
        ensures
            r == Rank::of(relative(self.at(), color)),
            r.at() == relative(self.at(), color),
    {
        match color {
            Color::White => self,
            Color::Black => Rank::index(7 - self.position()),
        }
    }
}

/// The rank position `r` as the side `color` counts ranks, from its own back rank.
pub open spec fn relative(r: int, color: Color) -> int {
    match color {
        Color::White => r,
        Color::Black => 7 - r,
    }
}

/// A square of the board.
#[derive(Clone, Copy, Debug, PartialEq, Eq, Structural)]
pub struct Square {
    pub file: File,
    pub rank: Rank,
}

impl Square {
    /// The number of the square: a1 is 0, b1 is 1, h8 is 63.
    pub open spec fn at(self) -> int {
        8 * self.rank.at() + self.file.at()
    }

    /// The square with number `i`.
    pub open spec fn of(i: int) -> Square {
        Square { file: File::of(i % 8), rank: Rank::of(i / 8) }
    }

    /// The square on `file` and `rank`.
    pub fn new(file: File, rank: Rank) -> (r: Square)
        ensures
            r == (Square { file, rank }),
    {
        Square { file, rank }
    }

    /// The square with number `i`.
    pub fn index(i: usize) -> (r: Square)
        requires
            i < 64,
        ensures
            r == Square::of(i as int),
            r.at() == i,
    {
        Square { file: File::index(i % 8), rank: Rank::index(i / 8) }
    }

    /// The number of the square.
    pub fn position(self) -> (r: usize)
        ensures
            r == self.at(),
            r < 64,
    {
        8 * self.rank.position() + self.file.position()
    }

    /// The square as the side `color` sees it: for Black the board is turned upside down.
    pub fn relative_to(self, color: Color) -> (r: Square)
        ensures
            r == (Square { file: self.file, rank: Rank::of(relative(self.rank.at(), color)) }),
    {
        Square { file: self.file, rank: self.rank.relative_to(color) }
    }
}

/// Every square has its own number below 64.
pub broadcast proof fn lemma_square_number(s: Square)
    ensures
        0 <= #[trigger] s.at() < 64,
        Square::of(s.at()) == s,
{
}

/// Every number below 64 is the number of a square.
pub broadcast proof fn lemma_number_square(i: int)
    requires
        0 <= i < 64,
    ensures
        (#[trigger] Square::of(i)).at() == i,
{
}

pub broadcast group group_squares {
    lemma_square_number,
    lemma_number_square,
}

/// The side of the king on which it castles.
#[derive(Clone, Copy, Debug, PartialEq, Eq, Structural)]
pub enum CastlingDirection {
    Short,
    Long,
}

/// What a move does besides going from one square to another.
#[derive(Clone, Copy, Debug, PartialEq, Eq, Structural)]
pub enum MoveFlag {
    Normal,
    DoublePush,
    LongCastling,
    ShortCastling,
    PromotionQueen,
    PromotionRook,
    PromotionBishop,
    PromotionKnight,
    Capture,
    EnPassant,
    CapturePromotionQueen,
    CapturePromotionRook,
    CapturePromotionBishop,
    CapturePromotionKnight,
}

impl MoveFlag {
    /// The number that stands for the flag in packed data.
    pub open spec fn number(self) -> int {
        match self {
            MoveFlag::Normal => 0,
            MoveFlag::DoublePush => 1,
            MoveFlag::LongCastling => 2,
            MoveFlag::ShortCastling => 3,
            MoveFlag::PromotionQueen => 4,
            MoveFlag::PromotionRook => 5,
            MoveFlag::PromotionBishop => 6,
            MoveFlag::PromotionKnight => 7,
            MoveFlag::Capture => 8,
            MoveFlag::EnPassant => 9,
            MoveFlag::CapturePromotionQueen => 12,
            MoveFlag::CapturePromotionRook => 13,
            MoveFlag::CapturePromotionBishop => 14,
            MoveFlag::CapturePromotionKnight => 15,
        }
    }

    /// The flag that `n` stands for, if there is one.
    pub open spec fn of(n: int) -> Option<MoveFlag> {
        if n == 0 {
            Some(MoveFlag::Normal)
        } else if n == 1 {
            Some(MoveFlag::DoublePush)
        } else if n == 2 {
            Some(MoveFlag::LongCastling)
        } else if n == 3 {
            Some(MoveFlag::ShortCastling)
        } else if n == 4 {
            Some(MoveFlag::PromotionQueen)
        } else if n == 5 {
            Some(MoveFlag::PromotionRook)
        } else if n == 6 {
            Some(MoveFlag::PromotionBishop)
        } else if n == 7 {
            Some(MoveFlag::PromotionKnight)
        } else if n == 8 {
            Some(MoveFlag::Capture)
        } else if n == 9 {
            Some(MoveFlag::EnPassant)
        } else if n == 12 {
            Some(MoveFlag::CapturePromotionQueen)
        } else if n == 13 {
            Some(MoveFlag::CapturePromotionRook)
        } else if n == 14 {
            Some(MoveFlag::CapturePromotionBishop)
        } else if n == 15 {
            Some(MoveFlag::CapturePromotionKnight)
        } else {
            None
        }
    }

    /// Whether the move takes something.
    pub open spec fn takes(self) -> bool {
        self.number() >= 8
    }

    /// The piece that a pawn becomes by the move.
    pub open spec fn becomes(self) -> Option<Piece> {
        match self {
            MoveFlag::PromotionQueen | MoveFlag::CapturePromotionQueen => Some(Piece::Queen),
            MoveFlag::PromotionRook | MoveFlag::CapturePromotionRook => Some(Piece::Rook),
            MoveFlag::PromotionBishop | MoveFlag::CapturePromotionBishop => Some(Piece::Bishop),
            MoveFlag::PromotionKnight | MoveFlag::CapturePromotionKnight => Some(Piece::Knight),
            _ => None,
        }
    }

    /// The direction in which the move castles.
    pub open spec fn castles(self) -> Option<CastlingDirection> {
        match self {
            MoveFlag::LongCastling => Some(CastlingDirection::Long),
            MoveFlag::ShortCastling => Some(CastlingDirection::Short),
            _ => None,
        }
    }

    /// The number that stands for the flag in packed data.
    pub fn code(self) -> (r: u8)
        ensures
            r == self.number(),
            r < 16,
    {
        match self {
            MoveFlag::Normal => 0,
            MoveFlag::DoublePush => 1,
            MoveFlag::LongCastling => 2,
            MoveFlag::ShortCastling => 3,
            MoveFlag::PromotionQueen => 4,
            MoveFlag::PromotionRook => 5,
            MoveFlag::PromotionBishop => 6,
            MoveFlag::PromotionKnight => 7,
            MoveFlag::Capture => 8,
            MoveFlag::EnPassant => 9,
            MoveFlag::CapturePromotionQueen => 12,
            MoveFlag::CapturePromotionRook => 13,
            MoveFlag::CapturePromotionBishop => 14,
            MoveFlag::CapturePromotionKnight => 15,
        }
    }

    /// The flag that `n` stands for, if there is one.
    pub fn from_code(n: u32) -> (r: Option<MoveFlag>)
        ensures
            r == MoveFlag::of(n as int),
    {
        match n {
            0 => Some(MoveFlag::Normal),
            1 => Some(MoveFlag::DoublePush),
            2 => Some(MoveFlag::LongCastling),
            3 => Some(MoveFlag::ShortCastling),
            4 => Some(MoveFlag::PromotionQueen),
            5 => Some(MoveFlag::PromotionRook),
            6 => Some(MoveFlag::PromotionBishop),
            7 => Some(MoveFlag::PromotionKnight),
            8 => Some(MoveFlag::Capture),
            9 => Some(MoveFlag::EnPassant),
            12 => Some(MoveFlag::CapturePromotionQueen),
            13 => Some(MoveFlag::CapturePromotionRook),
            14 => Some(MoveFlag::CapturePromotionBishop),
            15 => Some(MoveFlag::CapturePromotionKnight),
            _ => None,
        }
    }

    /// Whether the move takes something.
    pub fn is_capture(self) -> (r: bool)
        ensures
            r == self.takes(),
    {
        self.code() >= 8
    }

    /// The piece that a pawn becomes by the move.
    pub fn promotion(self) -> (r: Option<Piece>)
        ensures
            r == self.becomes(),
    {
        match self {
            MoveFlag::PromotionQueen | MoveFlag::CapturePromotionQueen => Some(Piece::Queen),
            MoveFlag::PromotionRook | MoveFlag::CapturePromotionRook => Some(Piece::Rook),
            MoveFlag::PromotionBishop | MoveFlag::CapturePromotionBishop => Some(Piece::Bishop),
            MoveFlag::PromotionKnight | MoveFlag::CapturePromotionKnight => Some(Piece::Knight),
            _ => None,
        }
    }

    /// The direction in which the move castles.
    pub fn castling_dir(self) -> (r: Option<CastlingDirection>)
        ensures
            r == self.castles(),
    {
        match self {
            MoveFlag::LongCastling => Some(CastlingDirection::Long),
            MoveFlag::ShortCastling => Some(CastlingDirection::Short),
            _ => None,
        }
    }
}

/// Flags and their numbers stand for each other.
pub broadcast proof fn lemma_flag_number(f: MoveFlag)
    ensures
        MoveFlag::of(#[trigger] f.number()) == Some(f),
        0 <= f.number() < 16,
{
}

/// A number that stands for a flag is the number of that flag.
pub proof fn lemma_number_flag(n: int)
    ensures
        MoveFlag::of(n) matches Some(f) ==> f.number() == n,
{
}

/// A turn: a piece goes from `src` to `dest`, then the duck goes to `duck`. A castling king
/// goes to the square of its rook.
#[derive(Clone, Copy, Debug, PartialEq, Eq, Structural)]
pub struct Move {
    pub src: Square,
    pub dest: Square,
    pub duck: Square,
    pub flag: MoveFlag,
}

impl Move {
    /// The move as one number of 22 bits: source, destination, duck and flag, from the lowest
    /// bit up.
    pub open spec fn number(self) -> int {
        self.src.at() + 64 * self.dest.at() + 4096 * self.duck.at() + 262144 * self.flag.number()
    }

    /// The move as one number.
    pub fn raw(self) -> (r: u32)
        ensures
            r == self.number(),
            r < 0x40_0000,
    {
        let src = self.src.position() as u32;
        let dest = self.dest.position() as u32;
        let duck = self.duck.position() as u32;
        let flag = self.flag.code() as u32;
        src + 64 * dest + 4096 * duck + 262144 * flag
    }
}

} // verus!
