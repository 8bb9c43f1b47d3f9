//! Moves as they are written in PGN.
use crate::board::{Board, Position};
use crate::common::{CastlingDirection, File, Man, Move, MoveFlag, Piece, Rank, Square};
use crate::error::{invalid, invalid_text, Error};
use crate::fen::square;
use crate::movetext::is_ascii;
use crate::text::{chars_of, cut, find_last, is_word, text_of};
use crate::{common, error, fen, movetext, text};
use vstd::prelude::*;

verus! {

broadcast use crate::common::group_squares;

/// What a written move says about the piece that moves.
#[derive(Clone, Copy, Debug, PartialEq, Eq)]
pub enum Shape {
    /// The king castles.
    Castling(CastlingDirection),
    /// Something goes from one square to another.
    Coordinates { src: Square, dest: Square, promotion: Option<Piece> },
    /// A piece goes to a square. The file or the rank from which it comes may be given.
    Piece {
        piece: Piece,
        dest: Square,
        capture: bool,
        promotion: Option<Piece>,
        file: Option<File>,
        rank: Option<Rank>,
    },
}

/// A written move.
#[derive(Clone, Debug, PartialEq, Eq)]
pub struct Notation {
    /// The move without the marks behind it.
    pub text: String,
    pub shape: Shape,
    /// Where the duck goes, if that is written.
    pub duck: Option<Square>,
}

/// The model of a `Notation`.
#[verifier::ext_equal]
pub struct Written {
    pub text: Seq<char>,
    pub shape: Shape,
    pub duck: Option<Square>,
}

impl View for Notation {
    type V = Written;

    open spec fn view(&self) -> Written {
        Written { text: self.text@, shape: self.shape, duck: self.duck }
    }
}

/// Whether `c` is a mark that may follow a move.
pub open spec fn is_mark(c: char) -> bool {
    c == '+' || c == '#' || c == '!' || c == '?'
}

/// `s` without the marks at its end.
pub open spec fn unmarked(s: Seq<char>) -> Seq<char>
    decreases s.len(),
{
    if s.len() > 0 && is_mark(s.last()) {
        unmarked(s.drop_last())
    } else {
        s
    }
}

/// The castling that a word stands for.
pub open spec fn castling_of(s: Seq<char>) -> Option<CastlingDirection> {
    if s == "O-O"@ || s == "0-0"@ {
        Some(CastlingDirection::Short)
    } else if s == "O-O-O"@ || s == "0-0-0"@ {
        Some(CastlingDirection::Long)
    } else {
        None
    }
}

/// The piece that a pawn becomes, by its letter.
pub open spec fn promotion_of(s: Seq<char>) -> Option<Piece> {
    if s == "Q"@ || s == "q"@ {
        Some(Piece::Queen)
    } else if s == "R"@ || s == "r"@ {
        Some(Piece::Rook)
    } else if s == "B"@ || s == "b"@ {
        Some(Piece::Bishop)
    } else if s == "N"@ || s == "n"@ {
        Some(Piece::Knight)
    } else {
        None
    }
}

/// The two squares that four characters name.
pub open spec fn coordinates_of(s: Seq<char>) -> Option<(Square, Square)> {
    if s.len() == 4 {
        match (fen::square_of(s.take(2)), fen::square_of(s.skip(2))) {
            (Some(a), Some(b)) => Some((a, b)),
            _ => None,
        }
    } else {
        None
    }
}

/// The piece with which a move begins. A pawn has no letter.
pub open spec fn piece_of(s: Seq<char>) -> Piece {
    if s.len() == 0 {
        Piece::Pawn
    } else {
        match s[0] {
            'K' => Piece::King,
            'Q' => Piece::Queen,
            'R' => Piece::Rook,
            'B' => Piece::Bishop,
            'N' => Piece::Knight,
            _ => Piece::Pawn,
        }
    }
}

/// What is known of where a piece comes from.
#[derive(Clone, Copy, Debug, PartialEq, Eq)]
pub struct Origin {
    pub capture: bool,
    pub file: Option<File>,
    pub rank: Option<Rank>,
}

/// What the characters of `s` from `i` on say of where a piece comes from, after `o`.
pub open spec fn origin_from(s: Seq<char>, i: int, o: Origin) -> Option<Origin>
    decreases s.len() - i,
{
    if i >= s.len() {
        Some(o)
    } else if s[i] == 'x' && !o.capture {
        origin_from(s, i + 1, Origin { capture: true, ..o })
    } else if 'a' <= s[i] <= 'h' && o.file is None {
        origin_from(s, i + 1, Origin { file: Some(File::of(s[i] as u32 - 97)), ..o })
    } else if '1' <= s[i] <= '8' && o.rank is None {
        origin_from(s, i + 1, Origin { rank: Some(Rank::of(s[i] as u32 - 49)), ..o })
    } else {
        None
    }
}

/// The move of a piece that is written as `s`, with a promotion behind it or not.
pub open spec fn piece_shape(s: Seq<char>, promotion: Option<Piece>) -> Result<Shape, Seq<char>> {
    if s.len() < 2 {
        Err("invalid SAN move"@)
    } else {
        match fen::square_of(s.skip(s.len() - 2)) {
            None => Err("invalid SAN destination"@),
            Some(dest) => {
                let prefix = s.take(s.len() - 2);
                let piece = piece_of(prefix);
                let start = if piece == Piece::Pawn {
                    0int
                } else {
                    1
                };
                match origin_from(
                    prefix,
                    start,
                    Origin { capture: false, file: None, rank: None },
                ) {
                    None => Err("invalid SAN disambiguation"@),
                    Some(o) => Ok(
                        Shape::Piece {
                            piece,
                            dest,
                            capture: o.capture,
                            promotion,
                            file: o.file,
                            rank: o.rank,
                        },
                    ),
                }
            },
        }
    }
}

/// The move that is written as `s`, with a promotion behind it or not.
pub open spec fn plain_shape(s: Seq<char>, promotion: Option<Piece>) -> Result<Shape, Seq<char>> {
    match coordinates_of(s) {
        Some((src, dest)) => Ok(Shape::Coordinates { src, dest, promotion }),
        None => piece_shape(s, promotion),
    }
}

/// The move that is written as `s`.
pub open spec fn shape_of(s: Seq<char>) -> Result<Shape, Seq<char>> {
    match castling_of(s) {
        Some(dir) => Ok(Shape::Castling(dir)),
        None => match text::last_of(s, '=') {
            Some(i) => match promotion_of(s.skip(i + 1)) {
                Some(piece) => plain_shape(s.take(i), Some(piece)),
                None => Err("invalid promotion"@),
            },
            None => plain_shape(s, None),
        },
    }
}

/// What the text `s` says.
pub open spec fn notation_of(s: Seq<char>) -> Result<Written, Seq<char>> {
    let t = unmarked(s);
    if !movetext::ascii(s) {
        Err("non-ASCII move"@)
    } else {
        match text::last_of(t, '@') {
            Some(i) => match fen::square_of(t.skip(i + 1)) {
                None => Err("invalid duck square"@),
                Some(d) => match shape_of(unmarked(t.take(i))) {
                    Ok(shape) => Ok(Written { text: t, shape, duck: Some(d) }),
                    Err(m) => Err(m),
                },
            },
            None => match shape_of(t) {
                Ok(shape) => Ok(Written { text: t, shape, duck: None }),
                Err(m) => Err(m),
            },
        }
    }
}

/// `s` without the marks at its end.
fn strip_marks(s: &[char]) -> (r: Vec<char>)
    ensures
        r@ == unmarked(s@),
{
    let mut n = s.len();
    assert(s@.take(n as int) =~= s@);
    while n > 0 && (s[n - 1] == '+' || s[n - 1] == '#' || s[n - 1] == '!' || s[n - 1] == '?')
        invariant
            n <= s@.len(),
            unmarked(s@) == unmarked(s@.take(n as int)),
        decreases n,
    {
        assert(s@.take(n as int).drop_last() =~= s@.take(n - 1));
        assert(s@.take(n as int).last() == s@[n - 1]);
        n -= 1;
    }
    assert(n > 0 ==> s@.take(n as int).last() == s@[n - 1]);
    assert(s@.take(n as int) =~= s@.subrange(0, n as int));
    cut(s, 0, n)
}

/// The castling that a word stands for.
fn read_castling(s: &[char]) -> (r: Option<CastlingDirection>)
    ensures
        r == castling_of(s@),
{
    if is_word(s, "O-O") || is_word(s, "0-0") {
        Some(CastlingDirection::Short)
    } else if is_word(s, "O-O-O") || is_word(s, "0-0-0") {
        Some(CastlingDirection::Long)
    } else {
        None
    }
}

/// The piece that a pawn becomes, by its letter.
fn read_promotion(s: &[char]) -> (r: Option<Piece>)
    ensures
        r == promotion_of(s@),
{
    if is_word(s, "Q") || is_word(s, "q") {
        Some(Piece::Queen)
    } else if is_word(s, "R") || is_word(s, "r") {
        Some(Piece::Rook)
    } else if is_word(s, "B") || is_word(s, "b") {
        Some(Piece::Bishop)
    } else if is_word(s, "N") || is_word(s, "n") {
        Some(Piece::Knight)
    } else {
        None
    }
}

/// The two squares that four characters name.
fn read_coordinates(s: &[char]) -> (r: Option<(Square, Square)>)
    ensures
        r == coordinates_of(s@),
{
    if s.len() != 4 {
        return None;
    }
    let a = cut(s, 0, 2);
    let b = cut(s, 2, 4);
    assert(a@ =~= s@.take(2));
    assert(b@ =~= s@.skip(2));
    match (square(a.as_slice()), square(b.as_slice())) {
        (Some(a), Some(b)) => Some((a, b)),
        _ => None,
    }
}

/// The piece with which a move begins.
fn read_piece(s: &[char]) -> (r: Piece)
    ensures
        r == piece_of(s@),
{
    if s.len() == 0 {
        return Piece::Pawn;
    }
    match s[0] {
        'K' => Piece::King,
        'Q' => Piece::Queen,
        'R' => Piece::Rook,
        'B' => Piece::Bishop,
        'N' => Piece::Knight,
        _ => Piece::Pawn,
    }
}

/// What the characters of `s` from `from` on say of where a piece comes from.
fn read_origin(s: &[char], from: usize) -> (r: Option<Origin>)
    requires
        from <= s@.len(),
    ensures
        r == origin_from(s@, from as int, Origin { capture: false, file: None, rank: None }),
{
    let mut o = Origin { capture: false, file: None, rank: None };
    let ghost start = o;
    let mut i = from;
    while i < s.len()
        invariant
            from <= i <= s@.len(),
            start == (Origin { capture: false, file: None, rank: None }),
            origin_from(s@, from as int, start) == origin_from(s@, i as int, o),
        decreases s@.len() - i,
    {
        let c = s[i];
        if c == 'x' && !o.capture {
            o.capture = true;
        } else if 'a' <= c && c <= 'h' && o.file.is_none() {
            o.file = Some(File::index((c as u32 - 97) as usize));
        } else if '1' <= c && c <= '8' && o.rank.is_none() {
            o.rank = Some(Rank::index((c as u32 - 49) as usize));
        } else {
            return None;
        }
        i += 1;
    }
    Some(o)
}

/// Whether `r` is what `s` describes.
pub open spec fn same_shape(r: Result<Shape, Error>, s: Result<Shape, Seq<char>>) -> bool {
    match (r, s) {
        (Ok(a), Ok(b)) => a == b,
        (Err(e), Err(m)) => e@ == error::bad(m),
        _ => false,
    }
}

/// Reads the move of a piece, with a promotion behind it or not.
fn read_piece_move(s: &[char], promotion: Option<Piece>) -> (r: Result<Shape, Error>)
    ensures
        same_shape(r, piece_shape(s@, promotion)),
{
    let n = s.len();
    if n < 2 {
        return Err(invalid("invalid SAN move"));
    }
    let end = cut(s, n - 2, n);
    assert(end@ =~= s@.skip(n - 2));
    let dest = match square(end.as_slice()) {
        Some(dest) => dest,
        None => {
            return Err(invalid("invalid SAN destination"));
        },
    };
    let prefix = cut(s, 0, n - 2);
    assert(prefix@ =~= s@.take(n - 2));
    let piece = read_piece(prefix.as_slice());
    let start: usize = if piece == Piece::Pawn {
        0
    } else {
        1
    };
    match read_origin(prefix.as_slice(), start) {
        Some(o) => Ok(
            Shape::Piece {
                piece,
                dest,
                capture: o.capture,
                promotion,
                file: o.file,
                rank: o.rank,
            },
        ),
        None => Err(invalid("invalid SAN disambiguation")),
    }
}

/// Reads a move that is no castling, with a promotion behind it or not.
fn read_plain(s: &[char], promotion: Option<Piece>) -> (r: Result<Shape, Error>)
    ensures
        same_shape(r, plain_shape(s@, promotion)),
{
    match read_coordinates(s) {
        Some((src, dest)) => Ok(Shape::Coordinates { src, dest, promotion }),
        None => read_piece_move(s, promotion),
    }
}

/// Reads a move without the duck.
fn read_shape(s: &[char]) -> (r: Result<Shape, Error>)
    ensures
        same_shape(r, shape_of(s@)),
{
    if let Some(dir) = read_castling(s) {
        return Ok(Shape::Castling(dir));
    }
    match find_last(s, '=') {
        Some(i) => {
            let n = s.len();
            let suffix = cut(s, i + 1, n);
            assert(suffix@ =~= s@.skip(i + 1));
            let base = cut(s, 0, i);
            assert(base@ =~= s@.take(i as int));
            match read_promotion(suffix.as_slice()) {
                Some(piece) => read_plain(base.as_slice(), Some(piece)),
                None => Err(invalid("invalid promotion")),
            }
        },
        None => read_plain(s, None),
    }
}

/// Reads a written move.
pub fn read_notation(text: &str) -> (r: Result<Notation, Error>)
    ensures
        match (r, notation_of(text@)) {
            (Ok(n), Ok(w)) => n@ == w,
            (Err(e), Err(m)) => e@ == error::bad(m),
            _ => false,
        },
{
    let chars = chars_of(text);
    if !is_ascii(chars.as_slice()) {
        return Err(invalid("non-ASCII move"));
    }
    let t = strip_marks(chars.as_slice());
    match find_last(t.as_slice(), '@') {
        Some(i) => {
            let n = t.len();
            let behind = cut(t.as_slice(), i + 1, n);
            assert(behind@ =~= t@.skip(i + 1));
            let before = cut(t.as_slice(), 0, i);
            assert(before@ =~= t@.take(i as int));
            match square(behind.as_slice()) {
                None => Err(invalid("invalid duck square")),
                Some(d) => match read_shape(strip_marks(before.as_slice()).as_slice()) {
                    Ok(shape) => Ok(
                        Notation { text: text_of(t.as_slice()), shape, duck: Some(d) },
                    ),
                    Err(e) => Err(e),
                },
            }
        },
        None => match read_shape(t.as_slice()) {
            Ok(shape) => Ok(Notation { text: text_of(t.as_slice()), shape, duck: None }),
            Err(e) => Err(e),
        },
    }
}

/// Whether a step from `s` to `t` with `flag` in the position `p` is what `shape` says.
pub open spec fn meant(p: Position, shape: Shape, s: Square, t: Square, flag: MoveFlag) -> bool {
    match shape {
        Shape::Castling(dir) => flag.castles() == Some(dir),
        Shape::Coordinates { src, dest, promotion } => s == src && t == dest && flag.becomes()
            == promotion,
        Shape::Piece { piece, dest, capture, promotion, file, rank } => {
            &&& t == dest
            &&& p.on(s) matches Some(m) && m.piece == piece
            &&& flag.takes() == capture
            &&& flag.becomes() == promotion
            &&& flag.castles() is None
            &&& file is None || file == Some(s.file)
            &&& rank is None || rank == Some(s.rank)
        },
    }
}

/// Where the duck goes when a piece goes from `s` to `t`: to the square `duck` that is written. When
/// the king is taken the game is over, and the duck may be left out; it then counts as going to `s`.
pub open spec fn duck_goal(p: Position, duck: Option<Square>, s: Square, t: Square) -> Option<
    Square,
> {
    if duck is Some {
        duck
    } else if p.on(t) == Some(Man { color: p.stm.opposite(), piece: Piece::King }) {
        Some(s)
    } else {
        None
    }
}

/// Whether `mv` is a legal move that may be meant by what is written.
pub open spec fn answers(p: Position, w: Written, mv: Move) -> bool {
    &&& p.legal(mv)
    &&& meant(p, w.shape, mv.src, mv.dest, mv.flag)
    &&& duck_goal(p, w.duck, mv.src, mv.dest) == Some(mv.duck)
}

/// Whether just one move may be meant by what is written, and it is `mv`.
pub open spec fn only_answer(p: Position, w: Written, mv: Move) -> bool {
    answers(p, w, mv) && forall|other: Move| #[trigger] answers(p, w, other) ==> other == mv
}

/// Whether no move may be meant by what is written.
pub open spec fn no_answer(p: Position, w: Written) -> bool {
    forall|mv: Move| !#[trigger] answers(p, w, mv)
}

/// The legal move that is written as `s` in the position `p`, or what is wrong.
pub open spec fn meaning(p: Position, s: Seq<char>) -> Result<Move, Seq<char>> {
    match notation_of(s) {
        Err(m) => Err(m),
        Ok(w) => if exists|mv: Move| #[trigger] only_answer(p, w, mv) {
            Ok(choose|mv: Move| #[trigger] only_answer(p, w, mv))
        } else if no_answer(p, w) {
            Err("illegal move or missing duck placement: "@ + w.text)
        } else {
            Err("ambiguous move "@ + w.text)
        },
    }
}

/// What was found among some moves.
#[derive(Clone, Copy, Debug, PartialEq, Eq)]
enum Found {
    Nothing,
    One(Move),
    Many,
}

/// A number by which moves are gone through, the duck left aside.
spec fn rank_of(mv: Move) -> int {
    1024 * mv.src.at() + 16 * mv.dest.at() + mv.flag.number()
}

/// Whether `mv` may be meant and has a number from `a` to below `b`.
spec fn answers_in(p: Position, w: Written, a: int, b: int, mv: Move) -> bool {
    answers(p, w, mv) && a <= rank_of(mv) < b
}

impl Found {
    /// Whether this was found among the moves with numbers from `a` to below `b`.
    #[verifier::opaque]
    spec fn describes(self, p: Position, w: Written, a: int, b: int) -> bool {
        match self {
            Found::Nothing => forall|mv: Move| !#[trigger] answers_in(p, w, a, b, mv),
            Found::One(one) => answers_in(p, w, a, b, one) && forall|mv: Move| #[trigger]
                answers_in(p, w, a, b, mv) ==> mv == one,
            Found::Many => exists|x: Move, y: Move|
                #![trigger answers_in(p, w, a, b, x), answers_in(p, w, a, b, y)]
                answers_in(p, w, a, b, x) && answers_in(p, w, a, b, y) && x != y,
        }
    }

    /// What was found here or there.
    fn or(self, other: Found, Ghost(p): Ghost<Position>, Ghost(w): Ghost<Written>, Ghost(a): Ghost<
        int,
    >, Ghost(m): Ghost<int>, Ghost(b): Ghost<int>) -> (r: Found)
        requires
            a <= m <= b,
            self.describes(p, w, a, m),
            other.describes(p, w, m, b),
        ensures
            r.describes(p, w, a, b),
    {
        proof {
            reveal(Found::describes);
            assert forall|mv: Move| #[trigger] answers_in(p, w, a, b, mv) implies answers_in(
                p,
                w,
                a,
                m,
                mv,
            ) || answers_in(p, w, m, b, mv) by {}
            assert forall|mv: Move| #[trigger] answers_in(p, w, a, m, mv) implies answers_in(
                p,
                w,
                a,
                b,
                mv,
            ) by {}
            assert forall|mv: Move| #[trigger] answers_in(p, w, m, b, mv) implies answers_in(
                p,
                w,
                a,
                b,
                mv,
            ) by {}
        }
        match (self, other) {
            (Found::Nothing, _) => other,
            (_, Found::Nothing) => self,
            _ => Found::Many,
        }
    }
}

/// Among no moves nothing is found.
proof fn lemma_nothing(p: Position, w: Written, a: int)
    ensures
        Found::Nothing.describes(p, w, a, a),
{
    reveal(Found::describes);
}

/// Whether a step is what `shape` says.
fn is_meant(board: &Board, shape: Shape, s: Square, t: Square, flag: MoveFlag) -> (r: bool)
    ensures
        r == meant(board@, shape, s, t, flag),
{
    match shape {
        Shape::Castling(dir) => match flag.castling_dir() {
            Some(d) => d == dir,
            None => false,
        },
        Shape::Coordinates { src, dest, promotion } => s == src && t == dest && same_piece(
            flag.promotion(),
            promotion,
        ),
        Shape::Piece { piece, dest, capture, promotion, file, rank } => t == dest && (
        match board.piece_on(s) {
            Some(m) => m == piece,
            None => false,
        }) && flag.is_capture() == capture && same_piece(flag.promotion(), promotion)
            && flag.castling_dir().is_none() && (match file {
            Some(f) => f == s.file,
            None => true,
        }) && (match rank {
            Some(r) => r == s.rank,
            None => true,
        }),
    }
}

/// Whether two pieces are the same.
fn same_piece(a: Option<Piece>, b: Option<Piece>) -> (r: bool)
    ensures
        r == (a == b),
{
    match (a, b) {
        (Some(x), Some(y)) => x == y,
        (None, None) => true,
        _ => false,
    }
}

/// Where the duck goes when a piece goes from `s` to `t`.
fn find_duck_goal(board: &Board, duck: Option<Square>, s: Square, t: Square) -> (r: Option<Square>)
    ensures
        r == duck_goal(board@, duck, s, t),
{
    if duck.is_some() {
        duck
    } else if board.holds(t, Man { color: board.stm.other(), piece: Piece::King }) {
        Some(s)
    } else {
        None
    }
}

/// What a move with given squares and flag can be.
fn find_move(board: &Board, n: &Notation, s: Square, t: Square, k: u32) -> (r: Found)
    requires
        k < 16,
    ensures
        r.describes(
            board@,
            n@,
            1024 * s.at() + 16 * t.at() + k,
            1024 * s.at() + 16 * t.at() + k + 1,
        ),
{
    let ghost a = 1024 * s.at() + 16 * t.at() + k;
    proof {
        reveal(Found::describes);
        assert forall|mv: Move| #[trigger] answers_in(board@, n@, a, a + 1, mv) implies mv.src == s
            && mv.dest == t && MoveFlag::of(k as int) == Some(mv.flag) by {
            common::lemma_flag_number(mv.flag);
            let (b, c, d) = (mv.src.at(), mv.dest.at(), mv.flag.number());
            assert(b == s.at() && c == t.at() && d == k) by {
                assert(0 <= 16 * c + d < 1024);
                assert(0 <= 16 * t.at() + k < 1024);
            }
            assert(Square::of(b) == mv.src && Square::of(s.at()) == s);
            assert(Square::of(c) == mv.dest && Square::of(t.at()) == t);
        }
    }
    let flag = match MoveFlag::from_code(k) {
        Some(flag) => flag,
        None => {
            return Found::Nothing;
        },
    };
    proof {
        common::lemma_number_flag(k as int);
    }
    if !is_meant(board, n.shape, s, t, flag) || !board.can_step(s, t, flag) {
        return Found::Nothing;
    }
    let duck = match find_duck_goal(board, n.duck, s, t) {
        Some(duck) => duck,
        None => {
            return Found::Nothing;
        },
    };
    let mv = Move { src: s, dest: t, duck, flag };
    if board.can_place_duck(s, t, flag, duck) {
        assert(answers_in(board@, n@, a, a + 1, mv));
        Found::One(mv)
    } else {
        Found::Nothing
    }
}

/// Whether the men and squares of a step from `s` to `t` are those that `shape` speaks of, its kind
/// left aside: for castling the king and a rook of the side to move, else the squares that are
/// written and, where a piece is, that piece of the side to move.
spec fn goes(p: Position, shape: Shape, s: Square, t: Square) -> bool {
    match shape {
        Shape::Castling(_) => p.on(s) == Some(Man { color: p.stm, piece: Piece::King }) && p.on(t)
            == Some(Man { color: p.stm, piece: Piece::Rook }),
        Shape::Coordinates { src, dest, .. } => s == src && t == dest,
        Shape::Piece { piece, dest, .. } => t == dest && p.on(s) == Some(
            Man { color: p.stm, piece },
        ),
    }
}

/// Whether a move may go from `s` to `t` by what is written, its kind left aside. If not, no step
/// from `s` to `t` is meant.
fn may_go(board: &Board, shape: Shape, s: Square, t: Square) -> (r: bool)
    ensures
        r == goes(board@, shape, s, t),
        !r ==> forall|flag: MoveFlag|
            !(#[trigger] meant(board@, shape, s, t, flag)) || !board@.step(s, t, flag),
{
    match shape {
        Shape::Castling(_) => board.holds(s, Man { color: board.stm, piece: Piece::King })
            && board.holds(t, Man { color: board.stm, piece: Piece::Rook }),
        Shape::Coordinates { src, dest, .. } => s == src && t == dest,
        Shape::Piece { piece, dest, .. } => t == dest && board.holds(
            s,
            Man { color: board.stm, piece },
        ),
    }
}

/// Goes through the moves from `s` to `t`.
fn find_between(board: &Board, n: &Notation, s: Square, t: Square) -> (r: Found)
    ensures
        r.describes(
            board@,
            n@,
            1024 * s.at() + 16 * t.at(),
            1024 * s.at() + 16 * t.at() + 16,
        ),
{
    let ghost a = 1024 * s.at() + 16 * t.at();
    if !may_go(board, n.shape, s, t) {
        proof {
            reveal(Found::describes);
            assert forall|mv: Move| !#[trigger] answers_in(board@, n@, a, a + 16, mv) by {
                if answers_in(board@, n@, a, a + 16, mv) {
                    common::lemma_flag_number(mv.flag);
                    let (b, c, d) = (mv.src.at(), mv.dest.at(), mv.flag.number());
                    assert(b == s.at() && c == t.at()) by {
                        assert(0 <= 16 * c + d < 1024);
                        assert(0 <= 16 * t.at() < 1024);
                    }
                    assert(Square::of(b) == mv.src && Square::of(s.at()) == s);
                    assert(Square::of(c) == mv.dest && Square::of(t.at()) == t);
                    assert(meant(board@, n@.shape, s, t, mv.flag));
                }
            }
        }
        return Found::Nothing;
    }
    let mut found = Found::Nothing;
    proof {
        lemma_nothing(board@, n@, a);
    }
    let mut k: u32 = 0;
    while k < 16
        invariant
            k <= 16,
            a == 1024 * s.at() + 16 * t.at(),
            found.describes(board@, n@, a, a + k),
        decreases 16 - k,
    {
        let here = find_move(board, n, s, t, k);
        found =
        found.or(here, Ghost(board@), Ghost(n@), Ghost(a), Ghost(a + k), Ghost(a + k + 1));
        k += 1;
    }
    found
}

/// Goes through the moves from `s`.
fn find_from(board: &Board, n: &Notation, s: Square) -> (r: Found)
    ensures
        r.describes(board@, n@, 1024 * s.at(), 1024 * s.at() + 1024),
{
    let ghost a = 1024 * s.at();
    let mut found = Found::Nothing;
    proof {
        lemma_nothing(board@, n@, a);
    }
    let mut i: usize = 0;
    while i < 64
        invariant
            i <= 64,
            a == 1024 * s.at(),
            found.describes(board@, n@, a, a + 16 * i),
        decreases 64 - i,
    {
        let t = Square::index(i);
        let here = find_between(board, n, s, t);
        let ghost m = a + 16 * i;
        found = found.or(here, Ghost(board@), Ghost(n@), Ghost(a), Ghost(m), Ghost(m + 16));
        i += 1;
    }
    found
}

/// Goes through all moves.
fn find_all(board: &Board, n: &Notation) -> (r: Found)
    ensures
        r.describes(board@, n@, 0, 65536),
{
    let mut found = Found::Nothing;
    proof {
        lemma_nothing(board@, n@, 0);
    }
    let mut i: usize = 0;
    while i < 64
        invariant
            i <= 64,
            found.describes(board@, n@, 0, 1024 * i),
        decreases 64 - i,
    {
        let s = Square::index(i);
        let here = find_from(board, n, s);
        let ghost m = 1024 * i;
        found = found.or(here, Ghost(board@), Ghost(n@), Ghost(0), Ghost(m), Ghost(m + 1024));
        i += 1;
    }
    found
}

/// The number of every move is in the range that is gone through.
proof fn lemma_rank_range(mv: Move)
    ensures
        0 <= rank_of(mv) < 65536,
{
    common::lemma_flag_number(mv.flag);
    assert(0 <= mv.src.at() < 64);
    assert(0 <= mv.dest.at() < 64);
}

/// Finds the legal move that is written as `text`. The duck may be left out when the king is taken.
pub fn parse_move(board: &Board, text: &str) -> (r: Result<Move, Error>)
    ensures
        match (r, meaning(board@, text@)) {
            (Ok(mv), Ok(m)) => mv == m,
            (Err(e), Err(m)) => e@ == error::bad(m),
            _ => false,
        },
{
    let n = match read_notation(text) {
        Ok(n) => n,
        Err(e) => {
            return Err(e);
        },
    };
    let found = find_all(board, &n);
    proof {
        reveal(Found::describes);
        assert forall|mv: Move| #[trigger] answers(board@, n@, mv) implies answers_in(
            board@,
            n@,
            0,
            65536,
            mv,
        ) by {
            lemma_rank_range(mv);
        }
    }
    match found {
        Found::One(mv) => {
            assert(only_answer(board@, n@, mv));
            Ok(mv)
        },
        Found::Nothing => {
            assert(forall|mv: Move| !#[trigger] answers(board@, n@, mv));
            assert(forall|mv: Move| !#[trigger] only_answer(board@, n@, mv));
            let mut message = "illegal move or missing duck placement: ".to_owned();
            message.append(n.text.as_str());
            Err(invalid_text(message))
        },
        Found::Many => {
            let mut message = "ambiguous move ".to_owned();
            message.append(n.text.as_str());
            proof {
                let (x, y) = choose|x: Move, y: Move|
                    #![trigger answers_in(board@, n@, 0, 65536, x), answers_in(board@, n@, 0, 65536, y)]
                    answers_in(board@, n@, 0, 65536, x) && answers_in(board@, n@, 0, 65536, y) && x
                        != y;
                assert(answers(board@, n@, x));
                assert(answers(board@, n@, y));
            }
            Err(invalid_text(message))
        },
    }
}

} // verus!
