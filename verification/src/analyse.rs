//! Statistics over stored games.
use crate::board::{Board, Position};
use crate::common::{Color, Man, Piece};
use crate::error::{invalid, invalid_text, Error, ErrorKind};
use crate::format::{MoveRecord, GAME_HEADER_SIZE, RECORD_SIZE};
use crate::games::{header_bytes, record_bytes, replay_move, within_ply};
use crate::header::unpack_header;
use crate::{board, error, games, hashing, header, moves, sums};
use std::collections::HashSet;
use vstd::prelude::*;

verus! {

broadcast use {crate::common::group_squares, vstd::std_specs::hash::group_hash_axioms};

/// How many registers estimate the number of different positions.
pub const REGISTERS: usize = 1048576;

/// How many counts there are for one kind of piece: from none to 32.
pub const COUNTS: usize = 33;

/// What was counted in some games.
pub struct Stats {
    pub games: u64,
    pub positions: u64,
    /// The sum of the first scores of the games, from the view of the side that begins.
    pub exits: i128,
    /// The games by outcome.
    pub outcomes: Vec<u64>,
    /// The positions by where the king of the side to move stands, as this side sees it.
    pub kings: Vec<u64>,
    /// The positions by where the duck stands; the last entry counts those without it.
    pub ducks: Vec<u64>,
    /// The positions by score, from -32768 on.
    pub scores: Vec<u64>,
    /// The positions by how many men there are.
    pub material: Vec<u64>,
    /// The positions by phase.
    pub phases: Vec<u64>,
    /// The positions by how many men of one color and kind there are, 33 entries for each color and
    /// kind.
    pub pieces: Vec<u64>,
    /// The numbers of the positions, if they are counted exactly.
    pub hashes: HashSet<u64>,
    /// What the number of different positions is estimated from, if they are not.
    pub registers: Vec<u8>,
}

/// The model of `Stats`.
#[verifier::ext_equal]
pub struct Census {
    pub games: int,
    pub positions: int,
    pub exits: int,
    pub outcomes: Seq<u64>,
    pub kings: Seq<u64>,
    pub ducks: Seq<u64>,
    pub scores: Seq<u64>,
    pub material: Seq<u64>,
    pub phases: Seq<u64>,
    pub pieces: Seq<u64>,
    pub hashes: Set<u64>,
    pub registers: Seq<u8>,
}

impl View for Stats {
    type V = Census;

    open spec fn view(&self) -> Census {
        Census {
            games: self.games as int,
            positions: self.positions as int,
            exits: self.exits as int,
            outcomes: self.outcomes@,
            kings: self.kings@,
            ducks: self.ducks@,
            scores: self.scores@,
            material: self.material@,
            phases: self.phases@,
            pieces: self.pieces@,
            hashes: self.hashes@,
            registers: self.registers@,
        }
    }
}

/// Whether `v` holds `n` counts that are `all` together.
pub open spec fn spreads(v: Seq<u64>, n: int, all: int) -> bool {
    v.len() == n && sums::total(v, n) == all
}

/// `n` counts of zero.
pub open spec fn zeros(n: int) -> Seq<u64> {
    Seq::new(n as nat, |i: int| 0u64)
}

/// `v` with one more at `i`.
pub open spec fn counted(v: Seq<u64>, i: int) -> Seq<u64> {
    v.update(i, (v[i] + 1) as u64)
}

/// How many binary digits `n` has.
pub open spec fn bits(n: int) -> int
    decreases n,
{
    if n <= 0 {
        0
    } else {
        1 + bits(n / 2)
    }
}

/// What a number is worth to its register: one more than the zeros before the other 44 bits.
pub open spec fn worth(hash: u64) -> int {
    45 - bits(hash as int % 0x1000_0000_0000)
}

/// Which register a number belongs to: its first 20 bits.
pub open spec fn register(hash: u64) -> int {
    hash as int / 0x1000_0000_0000
}

/// The registers after a number.
pub open spec fn registered(registers: Seq<u8>, hash: u64) -> Seq<u8> {
    let i = register(hash);
    registers.update(
        i,
        if registers[i] < worth(hash) {
            worth(hash) as u8
        } else {
            registers[i]
        },
    )
}

/// How far a position is from the end of the game: knights and bishops count 1, rooks 2, queens 4.
pub open spec fn phase(p: Position) -> int {
    p.number(None, Some(Piece::Knight)) + p.number(None, Some(Piece::Bishop)) + 2 * p.number(
        None,
        Some(Piece::Rook),
    ) + 4 * p.number(None, Some(Piece::Queen))
}

/// Block `b` of the piece counts: those for one color and kind.
pub open spec fn block(pieces: Seq<u64>, b: int) -> Seq<u64> {
    pieces.subrange(33 * b, 33 * b + 33)
}

/// The color that belongs to block `b` of the piece counts.
pub open spec fn block_color(b: int) -> Color {
    if b < 6 {
        Color::White
    } else {
        Color::Black
    }
}

/// The piece that belongs to block `b` of the piece counts.
pub open spec fn block_piece(b: int) -> Piece {
    let n = b % 6;
    if n == 0 {
        Piece::Pawn
    } else if n == 1 {
        Piece::Knight
    } else if n == 2 {
        Piece::Bishop
    } else if n == 3 {
        Piece::Rook
    } else if n == 4 {
        Piece::Queen
    } else {
        Piece::King
    }
}

/// How many men of the color and kind of block `b` there are.
pub open spec fn block_number(p: Position, b: int) -> int {
    p.number(Some(block_color(b)), Some(block_piece(b)))
}

/// The piece counts after a position: each block has one more at the number of its men.
pub open spec fn pieces_counted(pieces: Seq<u64>, p: Position) -> Seq<u64> {
    Seq::new(
        pieces.len(),
        |k: int|
            if k % 33 == block_number(p, k / 33) {
                (pieces[k] + 1) as u64
            } else {
                pieces[k]
            },
    )
}

/// Where the king of the side to move stands, as this side sees it.
pub open spec fn king_bucket(p: Position) -> int {
    let king = p.king(p.stm)->0;
    8 * king.rank.seen_by(p.stm) + king.file.at()
}

impl Census {
    /// What is counted before any game.
    pub open spec fn start(approximate: bool) -> Census {
        Census {
            games: 0,
            positions: 0,
            exits: 0,
            outcomes: zeros(3),
            kings: zeros(64),
            ducks: zeros(65),
            scores: zeros(65536),
            material: zeros(33),
            phases: zeros(25),
            pieces: zeros(396),
            hashes: Set::empty(),
            registers: Seq::new(
                if approximate {
                    REGISTERS as nat
                } else {
                    0
                },
                |i: int| 0u8,
            ),
        }
    }

    /// Whether the counts can be those of some games: every game has one outcome, and every position
    /// counts once in each distribution.
    pub open spec fn wf(self) -> bool {
        &&& spreads(self.outcomes, 3, self.games)
        &&& spreads(self.kings, 64, self.positions)
        &&& spreads(self.ducks, 65, self.positions)
        &&& spreads(self.scores, 65536, self.positions)
        &&& spreads(self.material, 33, self.positions)
        &&& spreads(self.phases, 25, self.positions)
        &&& self.pieces.len() == 396
        &&& forall|b: int|
            0 <= b < 12 ==> spreads(#[trigger] block(self.pieces, b), 33, self.positions)
        &&& self.registers.len() == 0 || self.registers.len() == REGISTERS
        &&& -32768 * self.games <= self.exits <= 32768 * self.games
        &&& self.hashes.finite()
        &&& self.hashes.len() <= self.positions
        &&& 0 <= self.games <= u64::MAX
        &&& 0 <= self.positions <= u64::MAX
    }

    /// The counts after the position `p` with a score.
    pub open spec fn after_position(self, p: Position, score: i16) -> Census {
        let hash = hashing::position_hash(p);
        Census {
            positions: self.positions + 1,
            hashes: if self.registers.len() == 0 {
                self.hashes.insert(hash)
            } else {
                self.hashes
            },
            registers: if self.registers.len() == 0 {
                self.registers
            } else {
                registered(self.registers, hash)
            },
            scores: counted(self.scores, score + 32768),
            kings: counted(self.kings, king_bucket(p)),
            ducks: counted(self.ducks, header::duck_square(p)),
            material: counted(self.material, p.number(None, None)),
            phases: counted(
                self.phases,
                if phase(p) < 24 {
                    phase(p)
                } else {
                    24
                },
            ),
            pieces: pieces_counted(self.pieces, p),
            ..self
        }
    }
}

/// `n` counts of zero.
fn empty_counts(n: usize) -> (v: Vec<u64>)
    ensures
        v@ == zeros(n as int),
{
    let mut v: Vec<u64> = Vec::new();
    while v.len() < n
        invariant
            v@.len() <= n,
            forall|i: int| 0 <= i < v@.len() ==> #[trigger] v@[i] == 0,
        decreases n - v@.len(),
    {
        v.push(0);
    }
    assert(v@ =~= zeros(n as int));
    v
}

/// Adds one at `i`.
fn bump(v: &mut Vec<u64>, i: usize)
    requires
        i < old(v)@.len(),
        old(v)@[i as int] < u64::MAX,
    ensures
        final(v)@ == counted(old(v)@, i as int),
{
    let n = v[i];
    v.set(i, n + 1);
}

/// Adds one at `i` to counts that are `all` together.
fn enter(v: &mut Vec<u64>, i: usize, Ghost(all): Ghost<int>)
    requires
        spreads(old(v)@, old(v)@.len() as int, all),
        i < old(v)@.len(),
        all < u64::MAX,
    ensures
        final(v)@ == counted(old(v)@, i as int),
        spreads(final(v)@, old(v)@.len() as int, all + 1),
{
    proof {
        let n = v@.len() as int;
        sums::lemma_total_one(v@, i as int, n);
        sums::lemma_total_update(v@, i as int, (v@[i as int] + 1) as u64, n);
    }
    bump(v, i);
}

/// Two to the power `n`.
spec fn power(n: int) -> int
    decreases n,
{
    if n <= 0 {
        1
    } else {
        2 * power(n - 1)
    }
}

/// What a number is worth to its register.
fn worth_of(hash: u64) -> (r: u8)
    ensures
        r == worth(hash),
        1 <= r <= 45,
{
    let mut left = hash % 0x1000_0000_0000;
    let mut r: u8 = 45;
    assert(power(44) == 0x1000_0000_0000) by {
        reveal_with_fuel(power, 45);
    }
    while left > 0
        invariant
            worth(hash) == r - bits(left as int),
            left < power(r - 1),
            1 <= r <= 45,
        decreases left,
    {
        left = left / 2;
        r = r - 1;
    }
    r
}

impl Stats {
    /// Nothing counted yet. If `approximate`, the number of different positions is estimated.
    pub fn new(approximate: bool) -> (r: Stats)
        ensures
            r@ == Census::start(approximate),
            r@.wf(),
    {
        let n: usize = if approximate {
            REGISTERS
        } else {
            0
        };
        let mut registers: Vec<u8> = Vec::new();
        while registers.len() < n
            invariant
                registers@.len() <= n,
                forall|i: int| 0 <= i < registers@.len() ==> #[trigger] registers@[i] == 0,
            decreases n - registers@.len(),
        {
            registers.push(0);
        }
        let r = Stats {
            games: 0,
            positions: 0,
            exits: 0,
            outcomes: empty_counts(3),
            kings: empty_counts(64),
            ducks: empty_counts(65),
            scores: empty_counts(65536),
            material: empty_counts(33),
            phases: empty_counts(25),
            pieces: empty_counts(396),
            hashes: HashSet::new(),
            registers,
        };
        proof {
            sums::lemma_total_zero(zeros(3), 3);
            sums::lemma_total_zero(zeros(64), 64);
            sums::lemma_total_zero(zeros(65), 65);
            sums::lemma_total_zero(zeros(65536), 65536);
            sums::lemma_total_zero(zeros(33), 33);
            sums::lemma_total_zero(zeros(25), 25);
            assert forall|b: int| 0 <= b < 12 implies spreads(
                #[trigger] block(zeros(396), b),
                33,
                0,
            ) by {
                sums::lemma_total_zero(block(zeros(396), b), 33);
            }
        }
        assert(r@ =~= Census::start(approximate));
        r
    }

    /// The number of different positions, if they were counted exactly.
    pub fn unique_count(&self) -> (r: Option<u64>)
        ensures
            r == if self@.registers.len() == 0 {
                Some(self@.hashes.len() as u64)
            } else {
                None
            },
    {
        if self.registers.len() == 0 {
            Some(self.hashes.len() as u64)
        } else {
            None
        }
    }

    /// How many positions have the king of the side to move on the given rank and file.
    /// If `mirrored`, the file from the other edge counts too.
    pub fn king_count(&self, rank: usize, file: usize, mirrored: bool) -> (n: u64)
        requires
            self@.wf(),
            rank < 8,
            file < 8,
            mirrored ==> file < 4,
        ensures
            n == self@.kings[8 * rank + file] + if mirrored {
                self@.kings[8 * rank + 7 - file] as int
            } else {
                0
            },
    {
        let i = 8 * rank + file;
        if mirrored {
            let j = 8 * rank + 7 - file;
            proof {
                sums::lemma_total_two(self@.kings, i as int, j as int, 64);
            }
            self.kings[i] + self.kings[j]
        } else {
            self.kings[i]
        }
    }

    /// How many registers have not been used.
    pub fn empty_registers(&self) -> (n: usize)
        ensures
            n == self@.registers.filter(|r: u8| r == 0).len(),
    {
        let mut n: usize = 0;
        let mut i: usize = 0;
        while i < self.registers.len()
            invariant
                i <= self.registers@.len(),
                n <= i,
                n == self.registers@.take(i as int).filter(|r: u8| r == 0).len(),
            decreases self.registers@.len() - i,
        {
            proof {
                let s = self.registers@.take(i + 1);
                reveal(Seq::filter);
                assert(s.drop_last() =~= self.registers@.take(i as int));
                assert(s.last() == self.registers@[i as int]);
            }
            if self.registers[i] == 0 {
                n += 1;
            }
            i += 1;
        }
        assert(self.registers@.take(i as int) =~= self.registers@);
        n
    }
}

/// Some men are no more than all men.
proof fn lemma_part_of_men(
    squares: Seq<Option<Man>>,
    color: Option<Color>,
    piece: Option<Piece>,
    n: int,
)
    ensures
        board::tally(squares, color, piece, n) <= board::tally(squares, None, None, n),
    decreases n,
{
    if n > 0 {
        lemma_part_of_men(squares, color, piece, n - 1);
    }
}

/// The color that belongs to block `b` of the piece counts.
fn color_of_block(b: usize) -> (r: Color)
    ensures
        r == block_color(b as int),
{
    if b < 6 {
        Color::White
    } else {
        Color::Black
    }
}

/// The piece that belongs to block `b` of the piece counts.
fn piece_of_block(b: usize) -> (r: Piece)
    ensures
        r == block_piece(b as int),
{
    let n = b % 6;
    if n == 0 {
        Piece::Pawn
    } else if n == 1 {
        Piece::Knight
    } else if n == 2 {
        Piece::Bishop
    } else if n == 3 {
        Piece::Rook
    } else if n == 4 {
        Piece::Queen
    } else {
        Piece::King
    }
}

/// Adds a position to the piece counts.
fn count_pieces(pieces: &mut Vec<u64>, board: &Board)
    requires
        old(pieces)@.len() == 396,
        forall|k: int| 0 <= k < 396 ==> #[trigger] old(pieces)@[k] < u64::MAX,
        board@.number(None, None) <= 32,
    ensures
        final(pieces)@ == pieces_counted(old(pieces)@, board@),
{
    let ghost all = pieces_counted(pieces@, board@);
    let mut b: usize = 0;
    while b < 12
        invariant
            b <= 12,
            pieces@.len() == 396,
            all == pieces_counted(old(pieces)@, board@),
            old(pieces)@.len() == 396,
            board@.number(None, None) <= 32,
            forall|k: int| 0 <= k < 396 ==> #[trigger] old(pieces)@[k] < u64::MAX,
            forall|k: int| 0 <= k < 33 * b ==> #[trigger] pieces@[k] == all[k],
            forall|k: int| 33 * b <= k < 396 ==> #[trigger] pieces@[k] == old(pieces)@[k],
        decreases 12 - b,
    {
        let color = color_of_block(b);
        let piece = piece_of_block(b);
        let n = board.count(Some(color), Some(piece));
        proof {
            lemma_part_of_men(board@.squares, Some(color), Some(piece), 64);
            board::lemma_tally_bounds(board@.squares, Some(color), Some(piece), 64);
        }
        let ghost before = pieces@;
        let i = COUNTS * b + n;
        assert(pieces@[i as int] == old(pieces)@[i as int]);
        bump(pieces, i);
        b += 1;
        assert forall|k: int| 33 * (b - 1) <= k < 33 * b implies #[trigger] pieces@[k] == all[k] by {
            assert(k / 33 == b - 1);
            assert(k % 33 == k - 33 * (b - 1));
            assert(before[k] == old(pieces)@[k]);
        }
        assert forall|k: int| 0 <= k < 33 * (b - 1) implies #[trigger] pieces@[k] == all[k] by {
            assert(before[k] == all[k]);
        }
    }
    assert(pieces@ =~= all);
}

/// No piece count is above the number of positions.
pub proof fn lemma_piece_count(pieces: Seq<u64>, all: int, k: int)
    requires
        pieces.len() == 396,
        forall|b: int| 0 <= b < 12 ==> spreads(#[trigger] block(pieces, b), 33, all),
        0 <= k < 396,
    ensures
        pieces[k] <= all,
{
    let b = k / 33;
    assert(spreads(block(pieces, b), 33, all));
    assert(block(pieces, b)[k % 33] == pieces[k]);
    sums::lemma_total_one(block(pieces, b), k % 33, 33);
}

/// A position adds one to each block.
proof fn lemma_blocks_counted(pieces: Seq<u64>, p: Position, all: int)
    requires
        pieces.len() == 396,
        forall|b: int| 0 <= b < 12 ==> spreads(#[trigger] block(pieces, b), 33, all),
        all < u64::MAX,
        p.number(None, None) <= 32,
    ensures
        forall|b: int|
            0 <= b < 12 ==> spreads(#[trigger] block(pieces_counted(pieces, p), b), 33, all + 1),
{
    let next = pieces_counted(pieces, p);
    assert forall|b: int| 0 <= b < 12 implies spreads(#[trigger] block(next, b), 33, all + 1) by {
        let old_block = block(pieces, b);
        assert(spreads(old_block, 33, all));
        let n = block_number(p, b);
        let (color, piece) = (Some(block_color(b)), Some(block_piece(b)));
        lemma_part_of_men(p.squares, color, piece, 64);
        board::lemma_tally_bounds(p.squares, color, piece, 64);
        assert(0 <= n < 33);
        assert(block(next, b) =~= counted(old_block, n)) by {
            assert forall|j: int| 0 <= j < 33 implies block(next, b)[j] == #[trigger] counted(
                old_block,
                n,
            )[j] by {
                let k = 33 * b + j;
                assert(k / 33 == b && k % 33 == j);
                assert(next[k] == block(next, b)[j]);
            }
        }
        sums::lemma_total_one(old_block, n, 33);
        sums::lemma_total_update(old_block, n, (old_block[n] + 1) as u64, 33);
    }
}

/// How far a position is from the end of the game.
fn phase_of(board: &Board) -> (r: usize)
    ensures
        r == phase(board@),
{
    let knights = board.count(None, Some(Piece::Knight));
    let bishops = board.count(None, Some(Piece::Bishop));
    let rooks = board.count(None, Some(Piece::Rook));
    let queens = board.count(None, Some(Piece::Queen));
    knights + bishops + 2 * rooks + 4 * queens
}

impl Stats {
    /// Adds the number of a position.
    fn add_hash(&mut self, hash: u64)
        requires
            old(self)@.wf(),
        ensures
            final(self)@ == (Census {
                hashes: if old(self)@.registers.len() == 0 {
                    old(self)@.hashes.insert(hash)
                } else {
                    old(self)@.hashes
                },
                registers: if old(self)@.registers.len() == 0 {
                    old(self)@.registers
                } else {
                    registered(old(self)@.registers, hash)
                },
                ..old(self)@
            }),
    {
        if self.registers.len() == 0 {
            self.hashes.insert(hash);
        } else {
            let i = (hash / 0x1000_0000_0000) as usize;
            let w = worth_of(hash);
            let before = self.registers[i];
            let after = if before < w {
                w
            } else {
                before
            };
            self.registers.set(i, after);
        }
    }

    /// Adds a position with its score.
    pub fn position(&mut self, board: &Board, score: i16)
        requires
            old(self)@.wf(),
            old(self)@.positions < u64::MAX,
            board@.king(board@.stm) is Some,
            board@.number(None, None) <= 32,
        ensures
            final(self)@ == old(self)@.after_position(board@, score),
            final(self)@.wf(),
    {
        let ghost before = self@;
        self.add_hash(board.hash());
        self.positions = self.positions + 1;
        let s = (score as i32 + 32768) as usize;
        enter(&mut self.scores, s, Ghost(before.positions));
        if let Some(king) = board.try_king(board.stm) {
            enter(&mut self.kings, king.relative_to(board.stm).position(), Ghost(before.positions));
        }
        let duck: usize = match board.duck {
            Some(square) => square.position(),
            None => 64,
        };
        enter(&mut self.ducks, duck, Ghost(before.positions));
        let men = board.count(None, None);
        enter(&mut self.material, men, Ghost(before.positions));
        let phase = phase_of(board);
        let capped: usize = if phase < 24 {
            phase
        } else {
            24
        };
        enter(&mut self.phases, capped, Ghost(before.positions));
        proof {
            assert forall|k: int| 0 <= k < 396 implies #[trigger] self.pieces@[k] < u64::MAX by {
                lemma_piece_count(before.pieces, before.positions, k);
            }
            lemma_blocks_counted(before.pieces, board@, before.positions);
        }
        count_pieces(&mut self.pieces, board);
        assert(self@ =~= before.after_position(board@, score));
    }
}

/// The number of the outcome when the side `color` wins.
pub open spec fn win_number(color: Color) -> int {
    match color {
        Color::White => 2,
        Color::Black => 0,
    }
}

/// What record `i` of a game comes to in the position `p`: the counts after it, and what is wrong.
#[verifier::opaque]
pub open spec fn ply_counted(c: Census, p: Position, g: Seq<u8>, i: int) -> (
    Census,
    Option<Seq<char>>,
) {
    let last = i + 1 == games::plies_of(g);
    match MoveRecord::of(games::record_at(g, i)) {
        Err(e) => (c, Some(e.text())),
        Ok(None) => (c, Some("unexpected game terminator"@)),
        Ok(Some(record)) => {
            let mv = record.mv;
            if p.king(Color::White) is None || p.king(Color::Black) is None || p.hmc >= 100
                || !p.legal(mv) {
                (c, Some("invalid move during analysis"@))
            } else {
                let begun = if i == 0 {
                    Census { exits: c.exits + record.white_score * p.stm.forward(), ..c }
                } else {
                    c
                };
                let next = begun.after_position(p, record.white_score);
                if p.takes_king(mv) && (!last || g[30] != win_number(p.stm)) {
                    (next, Some("king capture must end the game with the matching result"@))
                } else if !last {
                    (next, games::replay_fault(p, mv))
                } else {
                    (next, None)
                }
            }
        },
    }
}

/// What a game comes to from record `i` on, in the position `p`.
pub open spec fn plies_counted(c: Census, p: Position, g: Seq<u8>, i: int) -> (
    Census,
    Result<(), (ErrorKind, Seq<char>)>,
)
    decreases games::plies_of(g) - i,
{
    if i >= games::plies_of(g) {
        (c, Ok(()))
    } else {
        let (next, fault) = ply_counted(c, p, g, i);
        match fault {
            Some(m) => (next, Err(error::bad(games::ply_place(i) + m))),
            None => plies_counted(
                next,
                p.after(games::move_at(g, i)),
                g,
                i + 1,
            ),
        }
    }
}

/// What a game comes to. A game that cannot be counted is counted up to where it fails.
pub open spec fn game_counted(c: Census, g: Seq<u8>) -> (
    Census,
    Result<(), (ErrorKind, Seq<char>)>,
) {
    match header::unpacked(g.take(32)) {
        Err(e) => (c, Err(e)),
        Ok(p) => plies_counted(
            Census { games: c.games + 1, outcomes: counted(c.outcomes, g[30] as int), ..c },
            p,
            g,
            0,
        ),
    }
}

impl Stats {
    /// Adds record `i` of a game, and makes the move.
    fn ply(&mut self, board: &mut Board, g: &[u8], i: usize, plies: usize) -> (r: Result<(), Error>)
        requires
            old(self)@.wf(),
            old(self)@.positions < u64::MAX,
            i == 0 ==> {
                &&& old(self)@.games > 0
                &&& -32768 * (old(self)@.games - 1) <= old(self)@.exits <= 32768 * (old(
                    self,
                )@.games - 1)
            },
            g@.len() >= 37,
            plies == games::plies_of(g@),
            i < plies,
            old(board)@.number(None, None) <= 32,
        ensures
            final(self)@.wf(),
            final(self)@.games == old(self)@.games,
            final(self)@.positions <= old(self)@.positions + 1,
            ({
                let (next, fault) = ply_counted(old(self)@, old(board)@, g@, i as int);
                &&& final(self)@ == next
                &&& error::agrees(r, header::checked(fault, ()))
                &&& fault is None && i + 1 < plies ==> final(board)@ == old(board)@.after(
                    games::move_at(g@, i as int),
                ) && final(board)@.number(None, None) <= 32
            }),
    {
        proof {
            reveal(ply_counted);
            reveal(games::move_at);
        }
        let record = match MoveRecord::from_bytes(record_bytes(g, i)) {
            Err(e) => {
                return Err(invalid_text(e.message()));
            },
            Ok(None) => {
                return Err(invalid("unexpected game terminator"));
            },
            Ok(Some(record)) => record,
        };
        let mv = record.mv;
        let ghost p = board@;
        if board.try_king(Color::White).is_none() || board.try_king(Color::Black).is_none()
            || board.hmc >= 100 || !board.is_legal(mv) {
            return Err(invalid("invalid move during analysis"));
        }
        if i == 0 {
            let score = record.white_score as i128;
            self.exits =
            match board.stm {
                Color::White => self.exits + score,
                Color::Black => self.exits - score,
            };
        }
        self.position(board, record.white_score);
        let winner: u8 = match board.stm {
            Color::White => 2,
            Color::Black => 0,
        };
        if board.is_king_capture(mv) && (i + 1 != plies || g[30] != winner) {
            return Err(invalid("king capture must end the game with the matching result"));
        }
        if i + 1 < plies {
            proof {
                moves::law_men_do_not_grow(p, mv);
            }
            return replay_move(board, mv);
        }
        Ok(())
    }

    /// Adds the records of a game that starts in the position of `board`.
    fn plies(&mut self, start: Board, g: &[u8]) -> (r: Result<(), Error>)
        requires
            old(self)@.wf(),
            old(self)@.games > 0,
            -32768 * (old(self)@.games - 1) <= old(self)@.exits <= 32768 * (old(self)@.games - 1),
            g@.len() >= 37,
            old(self)@.positions + games::plies_of(g@) <= u64::MAX,
            start@.number(None, None) <= 32,
        ensures
            final(self)@.wf(),
            final(self)@ == plies_counted(old(self)@, start@, g@, 0).0,
            error::agrees(r, plies_counted(old(self)@, start@, g@, 0).1),
    {
        let mut board = start;
        let plies = (g.len() - GAME_HEADER_SIZE - RECORD_SIZE) / RECORD_SIZE;
        let mut i: usize = 0;
        while i < plies
            invariant
                g@.len() >= 37,
                plies == games::plies_of(g@),
                i <= plies,
                self@.wf(),
                self@.positions + plies - i <= u64::MAX,
                i == 0 ==> self@.games > 0 && -32768 * (self@.games - 1) <= self@.exits <= 32768 * (
                self@.games - 1),
                i < plies ==> board@.number(None, None) <= 32,
                i < plies ==> plies_counted(old(self)@, start@, g@, 0) == plies_counted(
                    self@,
                    board@,
                    g@,
                    i as int,
                ),
                i == plies ==> plies_counted(old(self)@, start@, g@, 0) == (self@, Ok::<
                    (),
                    (ErrorKind, Seq<char>),
                >(())),
            decreases plies - i,
        {
            let ghost p = board@;
            match self.ply(&mut board, g, i, plies) {
                Ok(()) => {
                    assert(i + 1 == plies ==> plies_counted(
                        self@,
                        p.after(games::move_at(g@, i as int)),
                        g@,
                        i + 1,
                    ) == (self@, Ok::<(), (ErrorKind, Seq<char>)>(())));
                },
                Err(e) => {
                    return Err(within_ply(i, e));
                },
            }
            i += 1;
        }
        Ok(())
    }

    /// Adds a game. A game that cannot be counted is counted up to where it fails.
    pub fn game(&mut self, bytes: &[u8]) -> (r: Result<(), Error>)
        requires
            old(self)@.wf(),
            bytes@.len() >= GAME_HEADER_SIZE + RECORD_SIZE,
            old(self)@.games < u64::MAX,
            old(self)@.positions + games::plies_of(bytes@) <= u64::MAX,
        ensures
            final(self)@.wf(),
            final(self)@ == game_counted(old(self)@, bytes@).0,
            error::agrees(r, game_counted(old(self)@, bytes@).1),
    {
        let h = header_bytes(bytes);
        let board = match unpack_header(&h) {
            Ok(board) => board,
            Err(e) => {
                return Err(e);
            },
        };
        proof {
            header::law_header_bytes(h@, board@);
            assert(h@[30] == bytes@[30]);
        }
        let ghost before = self@;
        self.games = self.games + 1;
        enter(&mut self.outcomes, bytes[30] as usize, Ghost(before.games));
        assert(self@ =~= (Census {
            games: before.games + 1,
            outcomes: counted(before.outcomes, bytes@[30] as int),
            ..before
        }));
        self.plies(board, bytes)
    }
}

/// In an estimate the order of positions does not matter, and a position that comes again changes
/// nothing.
pub proof fn law_registers_forget_order(registers: Seq<u8>, a: u64, b: u64)
    requires
        registers.len() == REGISTERS,
    ensures
        registered(registered(registers, a), b) == registered(registered(registers, b), a),
        registered(registered(registers, a), a) == registered(registers, a),
{
    lemma_worth(a);
    lemma_worth(b);
    assert(registered(registered(registers, a), b) =~= registered(registered(registers, b), a));
    assert(registered(registered(registers, a), a) =~= registered(registers, a));
}

/// A number is worth from 1 to 45, and has a register.
proof fn lemma_worth(hash: u64)
    ensures
        1 <= worth(hash) <= 45,
        0 <= register(hash) < REGISTERS,
{
    assert(power(44) == 0x1000_0000_0000) by {
        reveal_with_fuel(power, 45);
    }
    lemma_bits(hash as int % 0x1000_0000_0000, 44);
}

proof fn lemma_bits(n: int, k: int)
    requires
        0 <= n < power(k),
        k >= 0,
    ensures
        0 <= bits(n) <= k,
    decreases k,
{
    if n > 0 && k > 0 {
        lemma_bits(n / 2, k - 1);
    }
}

} // verus!
