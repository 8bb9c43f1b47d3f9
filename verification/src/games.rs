//! Games: a header, move records and a terminator.
use crate::board::{Board, Position};
use crate::common::{Color, Move, Piece, Rank};
use crate::error::{invalid, Error, ErrorKind};
use crate::format::{
    is_terminator, too_short, GameHeaderBytes, MoveRecord, GAME_HEADER_SIZE, GAME_TERMINATOR,
    RECORD_SIZE,
};
use crate::header::validate_game_header;
use crate::{board, error, header, moves, text};
use vstd::prelude::*;
use vstd::slice::slice_subrange;

verus! {

/// The size that a game must not exceed before its terminator has been seen.
pub const MAX_GAME_SIZE: usize = 16777216;

/// What became of some input.
#[derive(Clone, Copy, Debug, PartialEq, Eq, Structural)]
pub enum Progress {
    /// There is no further game.
    End,
    /// So many bytes were used, and the game goes on.
    More(usize),
    /// So many bytes were used, and the game is complete.
    Complete(usize),
}

/// Whether `bytes` are a header and a number of whole records.
pub open spec fn whole_records(bytes: Seq<u8>) -> bool {
    bytes.len() >= GAME_HEADER_SIZE && (bytes.len() - GAME_HEADER_SIZE) % 5 == 0
}

/// Whether the record that starts at `i` is the terminator.
pub open spec fn ends_at(bytes: Seq<u8>, i: int) -> bool {
    bytes.subrange(i, i + 5) == GAME_TERMINATOR@
}

/// Whether the last record of a game is the terminator.
pub open spec fn terminated(bytes: Seq<u8>) -> bool {
    &&& bytes.len() > GAME_HEADER_SIZE
    &&& whole_records(bytes)
    &&& ends_at(bytes, bytes.len() - 5)
}

/// How far the whole records go that start at `i`, through the first terminator.
pub open spec fn records_end(bytes: Seq<u8>, i: int) -> int
    decreases bytes.len() - i,
{
    if i + 5 > bytes.len() {
        i
    } else if ends_at(bytes, i) {
        i + 5
    } else {
        records_end(bytes, i + 5)
    }
}

/// How many bytes of the input `chunk` are used when `bytes` have been read.
pub open spec fn used(bytes: Seq<u8>, chunk: Seq<u8>) -> int {
    if bytes.len() < GAME_HEADER_SIZE {
        board::min(GAME_HEADER_SIZE - bytes.len(), chunk.len() as int)
    } else if chunk.len() < 5 || !whole_records(bytes) {
        board::min(5 - (bytes.len() - GAME_HEADER_SIZE) % 5, chunk.len() as int)
    } else {
        records_end(chunk, 0)
    }
}

/// What comes of the input `chunk` when `bytes` have been read of a game. An empty `chunk` is the
/// end of the input.
pub open spec fn reading(bytes: Seq<u8>, chunk: Seq<u8>) -> Result<
    Progress,
    (ErrorKind, Seq<char>),
> {
    let n = used(bytes, chunk);
    let next = bytes + chunk.take(n);
    if chunk.len() == 0 {
        if bytes.len() == 0 {
            Ok(Progress::End)
        } else if whole_records(bytes) {
            Err((ErrorKind::UnexpectedEof, "unterminated Wakformat game"@))
        } else {
            Err(crate::format::short())
        }
    } else if next.len() == GAME_HEADER_SIZE && header::header_fault(next) is Some {
        Err(error::bad(header::header_fault(next)->0))
    } else if terminated(next) {
        Ok(Progress::Complete(n as usize))
    } else if whole_records(next) && next.len() > MAX_GAME_SIZE {
        Err(error::bad("Wakformat game exceeds 16 MiB"@))
    } else {
        Ok(Progress::More(n as usize))
    }
}

/// What is held of a game after the input `chunk`: what was read before and what was used of
/// `chunk`, whether that is accepted or not. At the end of the input a header that is not whole is
/// filled up with zeros, and a record that is not whole is dropped.
pub open spec fn held(bytes: Seq<u8>, chunk: Seq<u8>) -> Seq<u8> {
    if chunk.len() > 0 {
        bytes + chunk.take(used(bytes, chunk))
    } else if bytes.len() == 0 {
        bytes
    } else if bytes.len() < GAME_HEADER_SIZE {
        bytes + Seq::new((GAME_HEADER_SIZE - bytes.len()) as nat, |i: int| 0u8)
    } else {
        bytes.take(bytes.len() - (bytes.len() - GAME_HEADER_SIZE) % 5)
    }
}

proof fn lemma_records_end(bytes: Seq<u8>, i: int)
    requires
        0 <= i <= bytes.len(),
    ensures
        i <= records_end(bytes, i) <= bytes.len(),
        i + 5 <= bytes.len() ==> i + 5 <= records_end(bytes, i),
        (records_end(bytes, i) - i) % 5 == 0,
    decreases bytes.len() - i,
{
    if i + 5 <= bytes.len() && !ends_at(bytes, i) {
        lemma_records_end(bytes, i + 5);
    }
}

/// Finds how far the whole records of `chunk` go, through the first terminator.
fn find_records_end(chunk: &[u8]) -> (n: usize)
    ensures
        n == records_end(chunk@, 0),
        n <= chunk@.len(),
{
    let mut i: usize = 0;
    while chunk.len() - i >= 5
        invariant
            0 <= i <= chunk@.len(),
            records_end(chunk@, 0) == records_end(chunk@, i as int),
        decreases chunk@.len() - i,
    {
        if is_terminator(chunk, i) {
            return i + 5;
        }
        i = i + 5;
    }
    i
}

/// Adds the first `n` bytes of `chunk`.
fn append(bytes: &mut Vec<u8>, chunk: &[u8], n: usize)
    requires
        n <= chunk@.len(),
    ensures
        final(bytes)@ == old(bytes)@ + chunk@.take(n as int),
{
    let ghost before = bytes@;
    bytes.extend_from_slice(slice_subrange(chunk, 0, n));
    assert(bytes@ =~= before + chunk@.take(n as int));
}

/// Fills up a header with zeros.
fn fill_header(bytes: &mut Vec<u8>)
    requires
        0 < old(bytes)@.len() < GAME_HEADER_SIZE,
    ensures
        final(bytes)@ == held(old(bytes)@, seq![]),
{
    let ghost before = bytes@;
    while bytes.len() < GAME_HEADER_SIZE
        invariant
            before.len() <= bytes@.len() <= GAME_HEADER_SIZE,
            forall|i: int| 0 <= i < before.len() ==> #[trigger] bytes@[i] == before[i],
            forall|i: int| before.len() <= i < bytes@.len() ==> #[trigger] bytes@[i] == 0,
        decreases GAME_HEADER_SIZE - bytes@.len(),
    {
        bytes.push(0);
    }
    assert(bytes@ =~= held(before, seq![]));
}

/// Reads on in a game. The first call for a game gets empty `bytes`, every call the input that
/// comes next. Bytes that were used are added to `bytes`, also when they are refused. At the end of
/// the input a header that is not whole is filled up with zeros, and a record that is not whole is
/// dropped.
pub fn read_game(chunk: &[u8], bytes: &mut Vec<u8>) -> (r: Result<Progress, Error>)
    ensures
        error::agrees(r, reading(old(bytes)@, chunk@)),
        final(bytes)@ == held(old(bytes)@, chunk@),
{
    let have = bytes.len();
    if chunk.len() == 0 {
        assert(chunk@ =~= seq![]);
        if have == 0 {
            return Ok(Progress::End);
        }
        if have < GAME_HEADER_SIZE {
            fill_header(bytes);
            return Err(too_short());
        }
        let partial = (have - GAME_HEADER_SIZE) % RECORD_SIZE;
        bytes.truncate(have - partial);
        return if partial == 0 {
            Err(
                Error {
                    kind: ErrorKind::UnexpectedEof,
                    message: "unterminated Wakformat game".to_owned(),
                },
            )
        } else {
            Err(too_short())
        };
    }
    let n: usize = if have < GAME_HEADER_SIZE {
        if GAME_HEADER_SIZE - have < chunk.len() {
            GAME_HEADER_SIZE - have
        } else {
            chunk.len()
        }
    } else {
        let partial = (have - GAME_HEADER_SIZE) % RECORD_SIZE;
        if chunk.len() < RECORD_SIZE || partial != 0 {
            if RECORD_SIZE - partial < chunk.len() {
                RECORD_SIZE - partial
            } else {
                chunk.len()
            }
        } else {
            find_records_end(chunk)
        }
    };
    let ghost next = bytes@ + chunk@.take(n as int);
    append(bytes, chunk, n);
    let len = bytes.len();
    if len == GAME_HEADER_SIZE {
        let h = header_bytes(bytes.as_slice());
        assert(h@ =~= next);
        return match validate_game_header(&h) {
            Ok(()) => Ok(Progress::More(n)),
            Err(e) => Err(e),
        };
    }
    if len > GAME_HEADER_SIZE && (len - GAME_HEADER_SIZE) % RECORD_SIZE == 0 {
        if is_terminator(bytes.as_slice(), len - RECORD_SIZE) {
            return Ok(Progress::Complete(n));
        }
        if len > MAX_GAME_SIZE {
            return Err(invalid("Wakformat game exceeds 16 MiB"));
        }
    }
    Ok(Progress::More(n))
}

/// Whether `g` is a game: a valid header, records, and one terminator at the end.
pub open spec fn whole_game(g: Seq<u8>) -> bool {
    &&& terminated(g)
    &&& header::header_fault(g.take(32)) is None
    &&& forall|i: int|
        GAME_HEADER_SIZE <= i < g.len() - 5 && (i - GAME_HEADER_SIZE) % 5 == 0
            ==> !#[trigger] ends_at(g, i)
}

/// Whether `g` may be the beginning of a game.
pub open spec fn open_game(g: Seq<u8>) -> bool {
    &&& g.len() >= GAME_HEADER_SIZE ==> header::header_fault(g.take(32)) is None
    &&& forall|i: int|
        GAME_HEADER_SIZE <= i <= g.len() - 5 && (i - GAME_HEADER_SIZE) % 5 == 0
            ==> !#[trigger] ends_at(g, i)
}

/// The records of a chunk are used no further than to the end of the game.
proof fn lemma_records_of_game(g: Seq<u8>, start: int, chunk: Seq<u8>, i: int)
    requires
        whole_game(g),
        whole_records(g.take(start)),
        0 <= i <= chunk.len(),
        start + i < g.len(),
        GAME_HEADER_SIZE <= start,
        i % 5 == 0,
        forall|j: int| 0 <= j < chunk.len() && start + j < g.len() ==> #[trigger] chunk[j] == g[start + j],
    ensures
        start + records_end(chunk, i) <= g.len(),
    decreases chunk.len() - i,
{
    if i + 5 <= chunk.len() {
        assert((start + i - GAME_HEADER_SIZE) % 5 == 0);
        assert(start + i <= g.len() - 5);
        assert(chunk.subrange(i, i + 5) =~= g.subrange(start + i, start + i + 5));
        if start + i < g.len() - 5 {
            assert(!ends_at(g, start + i));
            lemma_records_of_game(g, start, chunk, i + 5);
        }
    }
}

/// A game that does not exceed the size limit is read to its end, in whatever pieces its bytes
/// come and whatever follows it: each piece is accepted, brings the reader further, and leaves it
/// with the bytes of the game up to there. The game is complete when all of it has been read.
pub proof fn law_game_is_read(g: Seq<u8>, bytes: Seq<u8>, chunk: Seq<u8>)
    requires
        whole_game(g),
        g.len() <= MAX_GAME_SIZE,
        bytes.len() < g.len(),
        bytes == g.take(bytes.len() as int),
        chunk.len() > 0,
        forall|j: int|
            0 <= j < chunk.len() && bytes.len() + j < g.len() ==> #[trigger] chunk[j]
                == g[bytes.len() + j],
    ensures
        ({
            let n = used(bytes, chunk);
            let next = bytes + chunk.take(n);
            &&& 0 < n <= chunk.len()
            &&& next.len() <= g.len()
            &&& next == g.take(next.len() as int)
            &&& reading(bytes, chunk) == Ok::<Progress, (ErrorKind, Seq<char>)>(
                if next.len() == g.len() {
                    Progress::Complete(n as usize)
                } else {
                    Progress::More(n as usize)
                },
            )
        }),
{
    let n = used(bytes, chunk);
    let next = bytes + chunk.take(n);
    lemma_records_end(chunk, 0);
    if bytes.len() >= GAME_HEADER_SIZE && chunk.len() >= 5 && whole_records(bytes) {
        assert(g.take(bytes.len() as int) == bytes);
        lemma_records_of_game(g, bytes.len() as int, chunk, 0);
    }
    assert(next.len() <= g.len());
    assert(next =~= g.take(next.len() as int)) by {
        assert forall|i: int| 0 <= i < next.len() implies next[i] == g[i] by {
            if i < bytes.len() {
                assert(bytes[i] == g.take(bytes.len() as int)[i]);
            } else {
                assert(chunk[i - bytes.len()] == g[bytes.len() + (i - bytes.len())]);
            }
        }
    }
    if next.len() == GAME_HEADER_SIZE {
        assert(next =~= g.take(32));
    }
    if whole_records(next) && next.len() > GAME_HEADER_SIZE {
        let i = next.len() - 5;
        assert(next.subrange(i, i + 5) =~= g.subrange(i, i + 5));
        assert(ends_at(next, i) == ends_at(g, i));
    }
    if next.len() == g.len() {
        assert(next =~= g);
    }
}

/// Of the records that are used of a chunk only the last may be a terminator.
proof fn lemma_records_before_end(chunk: Seq<u8>, i: int, j: int)
    requires
        0 <= i <= j,
        j + 5 < records_end(chunk, i),
        (j - i) % 5 == 0,
        i <= chunk.len(),
    ensures
        !ends_at(chunk, j),
    decreases j - i,
{
    if i < j {
        lemma_records_before_end(chunk, i + 5, j);
    }
}

/// What has been read is the beginning of a game until it is a game.
pub proof fn law_reading_makes_games(bytes: Seq<u8>, chunk: Seq<u8>)
    requires
        open_game(bytes),
        chunk.len() <= usize::MAX,
    ensures
        match reading(bytes, chunk) {
            Ok(Progress::More(n)) => open_game(bytes + chunk.take(n as int)),
            Ok(Progress::Complete(n)) => whole_game(bytes + chunk.take(n as int)),
            _ => true,
        },
        reading(bytes, chunk) == Ok::<Progress, (ErrorKind, Seq<char>)>(Progress::End)
            <==> bytes.len() == 0 && chunk.len() == 0,
{
    lemma_records_end(chunk, 0);
    let n = used(bytes, chunk);
    let next = bytes + chunk.take(n);
    if reading(bytes, chunk) is Ok && chunk.len() > 0 {
        assert(0 <= n <= chunk.len());
        if next.len() >= GAME_HEADER_SIZE {
            if bytes.len() < GAME_HEADER_SIZE {
                assert(next =~= next.take(32));
            } else {
                assert(next.take(32) =~= bytes.take(32));
            }
        }
        assert forall|i: int|
            GAME_HEADER_SIZE <= i && i + 5 <= next.len() && (i - GAME_HEADER_SIZE) % 5 == 0 && (i + 5
                < next.len() || !terminated(next)) implies !#[trigger] ends_at(next, i) by {
            if i + 5 <= bytes.len() {
                assert(next.subrange(i, i + 5) =~= bytes.subrange(i, i + 5));
                assert(!ends_at(bytes, i));
            } else if i + 5 < next.len() {
                assert(chunk.len() >= 5 && whole_records(bytes));
                let j = i - bytes.len();
                assert(j >= 0 && j % 5 == 0);
                lemma_records_before_end(chunk, 0, j);
                assert(next.subrange(i, i + 5) =~= chunk.subrange(j, j + 5));
            }
        }
    }
}

/// No game is the beginning of another.
pub proof fn law_games_do_not_overlap(a: Seq<u8>, b: Seq<u8>)
    requires
        whole_game(a),
        whole_game(b),
        a.len() <= b.len(),
        a == b.take(a.len() as int),
    ensures
        a == b,
{
    if a.len() < b.len() {
        let i = a.len() - 5;
        assert(a.subrange(i, i + 5) =~= b.subrange(i, i + 5));
        assert(!ends_at(b, i));
    }
    assert(a =~= b);
}

/// Why `mv` cannot be the next move of a stored game.
pub open spec fn replay_fault(p: Position, mv: Move) -> Option<Seq<char>> {
    match p.on(mv.src) {
        None => Some("empty move source"@),
        Some(m) => {
            let pawn = m.piece == Piece::Pawn;
            let last = mv.dest.rank.seen_by(p.stm) == 7;
            if p.king(p.stm) is None || p.king(p.stm.opposite()) is None || p.hmc >= 100 || (p.stm
                == Color::Black && p.fmc == u16::MAX) || (pawn && (mv.src.rank == Rank::First
                || mv.src.rank == Rank::Eighth)) || (pawn && (mv.flag.becomes() is Some) != last)
                || !p.legal(mv) {
                Some("invalid move during replay"@)
            } else {
                None
            }
        },
    }
}

/// Makes the next move of a stored game. A move that cannot be one leaves the board as it is.
pub fn replay_move(board: &mut Board, mv: Move) -> (r: Result<(), Error>)
    ensures
        error::agrees(r, header::checked(replay_fault(old(board)@, mv), ())),
        final(board)@ == match replay_fault(old(board)@, mv) {
            Some(_) => old(board)@,
            None => old(board)@.after(mv),
        },
{
    let piece = match board.piece_on(mv.src) {
        Some(piece) => piece,
        None => {
            return Err(invalid("empty move source"));
        },
    };
    let pawn = piece == Piece::Pawn;
    let last = mv.dest.rank == Rank::Eighth.relative_to(board.stm);
    if board.try_king(board.stm).is_none() || board.try_king(board.stm.other()).is_none()
        || board.hmc >= 100 || (board.stm == Color::Black && board.fmc == u16::MAX) || (pawn && (
    mv.src.rank == Rank::First || mv.src.rank == Rank::Eighth)) || (pawn
        && mv.flag.promotion().is_some() != last) || !board.is_legal(mv) {
        return Err(invalid("invalid move during replay"));
    }
    board.make_move(mv);
    Ok(())
}

/// When the only king of a side has been taken, or the count of turns without a pawn move or a
/// capture has come to 100, the game is over: whatever move follows is refused.
pub proof fn law_game_is_over(p: Position, mv: Move, next: Move)
    requires
        p.squares.len() == 64,
        replay_fault(p, mv) is None,
        (p.takes_king(mv) && p.number(Some(p.stm.opposite()), Some(Piece::King)) == 1) || p.after(
            mv,
        ).hmc >= 100,
    ensures
        replay_fault(p.after(mv), next) is Some,
{
    let q = p.after(mv);
    if q.hmc < 100 {
        moves::law_king_is_gone(p, mv);
        if q.king(q.stm) is Some {
            moves::lemma_king_there(q.squares, q.stm, 0);
            moves::lemma_king_counts(q.squares, q.stm, q.king(q.stm)->0.at(), 64);
        }
    }
}

/// The bytes of record `i` of a game.
pub open spec fn record_at(g: Seq<u8>, i: int) -> Seq<u8> {
    g.subrange(GAME_HEADER_SIZE + 5 * i, GAME_HEADER_SIZE + 5 * i + 5)
}

/// The move of record `i` of a game.
#[verifier::opaque]
pub open spec fn move_at(g: Seq<u8>, i: int) -> Move {
    MoveRecord::of(record_at(g, i))->Ok_0->0.mv
}

/// How many moves a game has: its records without the last.
pub open spec fn plies_of(g: Seq<u8>) -> int {
    (g.len() - GAME_HEADER_SIZE - RECORD_SIZE) / 5
}

/// The bytes of record `i` of a game.
pub fn record_bytes(g: &[u8], i: usize) -> (r: [u8; 5])
    requires
        GAME_HEADER_SIZE + 5 * i + 5 <= g@.len(),
    ensures
        r@ == record_at(g@, i as int),
{
    let len = g.len();
    let a = GAME_HEADER_SIZE + 5 * i;
    let r = [g[a], g[a + 1], g[a + 2], g[a + 3], g[a + 4]];
    assert(r@ =~= record_at(g@, i as int));
    r
}

/// The header of a game.
pub fn header_bytes(g: &[u8]) -> (h: GameHeaderBytes)
    requires
        g@.len() >= GAME_HEADER_SIZE,
    ensures
        h@ == g@.take(32),
{
    let mut h: GameHeaderBytes = [0; 32];
    let mut i: usize = 0;
    while i < 32
        invariant
            i <= 32 <= g@.len(),
            h@.take(i as int) == g@.take(i as int),
        decreases 32 - i,
    {
        let ghost before = h@;
        h[i] = g[i];
        i = i + 1;
        assert(h@.take(i as int) =~= before.take(i - 1).push(g@[i - 1]));
        assert(g@.take(i as int) =~= g@.take(i - 1).push(g@[i - 1]));
    }
    assert(h@.take(32) =~= h@);
    h
}

/// The words that say which ply is meant.
pub open spec fn ply_place(i: int) -> Seq<char> {
    "ply "@ + text::decimal((i + 1) as nat) + ": "@
}

/// The error `e` at ply `i`.
pub fn within_ply(i: usize, e: Error) -> (r: Error)
    requires
        i < usize::MAX,
    ensures
        r@ == (e.kind, ply_place(i as int) + e@.1),
{
    let mut s = "ply ".to_owned();
    text::push_decimal(&mut s, i as u64 + 1);
    s.append(": ");
    e.within(s.as_str())
}

/// When the input ends within a game, the header is filled up with zeros, and of the records those
/// that are whole are kept.
pub proof fn law_broken_off_games(bytes: Seq<u8>)
    ensures
        ({
            let h = held(bytes, seq![]);
            &&& bytes.len() == 0 ==> h.len() == 0
            &&& 0 < bytes.len() < 32 ==> {
                &&& h.len() == 32
                &&& h.take(bytes.len() as int) == bytes
                &&& forall|i: int| bytes.len() <= i < 32 ==> #[trigger] h[i] == 0
            }
            &&& bytes.len() >= 32 ==> {
                &&& (h.len() - 32) % 5 == 0
                &&& h.len() <= bytes.len() < h.len() + 5
                &&& h == bytes.take(h.len() as int)
            }
        }),
{
    let h = held(bytes, seq![]);
    if 0 < bytes.len() < 32 {
        assert(h.take(bytes.len() as int) =~= bytes);
    }
}

/// The header of a game is read as far as the input goes, and nothing behind it along with it.
pub proof fn law_headers_are_read_first(bytes: Seq<u8>, chunk: Seq<u8>)
    requires
        bytes.len() < 32,
    ensures
        0 <= used(bytes, chunk) <= chunk.len(),
        bytes.len() + used(bytes, chunk) <= 32,
        used(bytes, chunk) == chunk.len() || bytes.len() + used(bytes, chunk) == 32,
{
}

} // verus!
