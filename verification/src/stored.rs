//! What holds of games that were converted.
use crate::analyse::Census;
use crate::board::Position;
use crate::common::{Color, Move, Piece};
use crate::convert::Fill;
use crate::error::ErrorKind;
use crate::format::{GameOutcome, MoveRecord, GAME_HEADER_SIZE, GAME_TERMINATOR};
use crate::movetext::{GameText, PlyText};
use crate::{analyse, bullet, convert, games, header, initial, moves, movetext, notation};
use vstd::prelude::*;

verus! {

broadcast use crate::common::group_squares;

/// The move that ply `i` means in the position `p`.
pub open spec fn move_of(p: Position, plies: Seq<PlyText>, i: int) -> Move {
    notation::meaning(p, plies[i].text)->Ok_0
}

/// The position before ply `i` of a game that starts in the position `p`.
pub open spec fn position_before(p: Position, plies: Seq<PlyText>, i: int) -> Position
    decreases i,
{
    if i <= 0 {
        p
    } else {
        let q = position_before(p, plies, i - 1);
        q.after(move_of(q, plies, i - 1))
    }
}

/// The record of ply `i` in the position `p`.
pub open spec fn record_of(
    p: Position,
    plies: Seq<PlyText>,
    scores: Seq<Option<i16>>,
    i: int,
) -> MoveRecord {
    MoveRecord { mv: move_of(p, plies, i), white_score: scores[i]->0 }
}

/// Whether a side has just one king, and the position is one that a header can hold.
spec fn steady(p: Position) -> bool {
    &&& header::fitting(p)
    &&& p.number(Some(Color::White), Some(Piece::King)) == 1
    &&& p.number(Some(Color::Black), Some(Piece::King)) == 1
}

/// What a written move means is legal.
proof fn lemma_meaning_is_legal(p: Position, s: Seq<char>)
    requires
        notation::meaning(p, s) is Ok,
    ensures
        p.legal(notation::meaning(p, s)->Ok_0),
{
    let w = notation::notation_of(s)->Ok_0;
    let mv = notation::meaning(p, s)->Ok_0;
    assert(notation::only_answer(p, w, mv));
    assert(notation::answers(p, w, mv));
}

/// A legal move in a steady position can be replayed, but for the counters.
proof fn lemma_replays(p: Position, mv: Move)
    requires
        steady(p),
        p.legal(mv),
        p.hmc < 100,
        !(p.stm == Color::Black && p.fmc == u16::MAX),
    ensures
        games::replay_fault(p, mv) is None,
{
    moves::lemma_king_found(p.squares, Color::White, 0);
    moves::lemma_king_found(p.squares, Color::Black, 0);
    let s = mv.src;
    let m = p.on(s)->0;
    if m.piece == Piece::Pawn {
        assert(p.squares[s.at()] is Some);
        assert(8 <= s.at() < 56);
        assert(mv.flag.castles() is None);
        assert(p.pawn_step(s, mv.dest, mv.flag));
    }
}

/// What encoding leaves.
proof fn lemma_encoded(
    p: Position,
    plies: Seq<PlyText>,
    scores: Seq<Option<i16>>,
    outcome: GameOutcome,
    i: int,
    done: Seq<u8>,
)
    requires
        0 <= i <= plies.len(),
        done.len() == GAME_HEADER_SIZE + 5 * i,
        convert::encoded(p, plies, scores, outcome, i, done).1 is Ok,
    ensures
        ({
            let g = convert::encoded(p, plies, scores, outcome, i, done).0;
            &&& g.len() == GAME_HEADER_SIZE + 5 * plies.len() + 5
            &&& g.take(done.len() as int) == done
            &&& games::record_at(g, plies.len() as int) == GAME_TERMINATOR@
            &&& i < plies.len() ==> games::record_at(g, i) == record_of(p, plies, scores, i).bytes()
        }),
    decreases plies.len() - i,
{
    let g = convert::encoded(p, plies, scores, outcome, i, done).0;
    if i < plies.len() {
        let mv = move_of(p, plies, i);
        let record = record_of(p, plies, scores, i);
        let next = done + record.bytes();
        assert(record.bytes().len() == 5);
        lemma_encoded(p.after(mv), plies, scores, outcome, i + 1, next);
        assert(g.take(done.len() as int) =~= done) by {
            assert(g.take(next.len() as int).take(done.len() as int) =~= g.take(done.len() as int));
            assert(next.take(done.len() as int) =~= done);
        }
        assert(games::record_at(g, i) =~= record.bytes()) by {
            assert(g.take(next.len() as int).subrange(
                done.len() as int,
                next.len() as int,
            ) =~= games::record_at(g, i));
            assert(next.subrange(done.len() as int, next.len() as int) =~= record.bytes());
        }
    } else {
        let end = GAME_TERMINATOR;
        assert(g == done + end@);
        assert(end@.len() == 5);
        assert(g.take(done.len() as int) =~= done);
        assert(games::record_at(g, plies.len() as int) =~= end@);
    }
}

/// The records behind ply `i` are those of the plies.
proof fn lemma_records(
    first: Position,
    plies: Seq<PlyText>,
    scores: Seq<Option<i16>>,
    outcome: GameOutcome,
    i: int,
    done: Seq<u8>,
    k: int,
)
    requires
        0 <= i <= k < plies.len(),
        done.len() == GAME_HEADER_SIZE + 5 * i,
        convert::encoded(
            position_before(first, plies, i),
            plies,
            scores,
            outcome,
            i,
            done,
        ).1 is Ok,
    ensures
        ({
            let p = position_before(first, plies, i);
            let q = position_before(first, plies, k);
            let g = convert::encoded(p, plies, scores, outcome, i, done).0;
            &&& games::record_at(g, k) == record_of(q, plies, scores, k).bytes()
            &&& notation::meaning(q, plies[k].text) is Ok
            &&& scores[k] is Some
        }),
    decreases k - i,
{
    let p = position_before(first, plies, i);
    lemma_encoded(p, plies, scores, outcome, i, done);
    if i < k {
        let next = done + record_of(p, plies, scores, i).bytes();
        assert(position_before(first, plies, i + 1) == p.after(move_of(p, plies, i)));
        lemma_records(first, plies, scores, outcome, i + 1, next, k);
    }
}

/// The record of a legal move is read back.
proof fn lemma_record_back(p: Position, plies: Seq<PlyText>, scores: Seq<Option<i16>>, i: int)
    requires
        notation::meaning(p, plies[i].text) is Ok,
    ensures
        ({
            let record = record_of(p, plies, scores, i);
            &&& MoveRecord::of(record.bytes()) == Ok::<
                Option<MoveRecord>,
                crate::format::FormatError,
            >(Some(record))
            &&& record.bytes() != GAME_TERMINATOR@
        }),
{
    let record = record_of(p, plies, scores, i);
    lemma_meaning_is_legal(p, plies[i].text);
    moves::law_move_goes(p, record.mv);
    crate::format::law_record_round_trip(record);
}

/// The counting of a game that was encoded goes through.
proof fn lemma_counted(
    c: Census,
    p: Position,
    plies: Seq<PlyText>,
    scores: Seq<Option<i16>>,
    outcome: GameOutcome,
    i: int,
    done: Seq<u8>,
    g: Seq<u8>,
)
    requires
        0 <= i <= plies.len(),
        done.len() == GAME_HEADER_SIZE + 5 * i,
        convert::encoded(p, plies, scores, outcome, i, done).0 == g,
        convert::encoded(p, plies, scores, outcome, i, done).1 is Ok,
        g[30] == outcome.number(),
        i < plies.len() ==> steady(p),
    ensures
        analyse::plies_counted(c, p, g, i).1 is Ok,
        analyse::plies_counted(c, p, g, i).0.positions == c.positions + plies.len() - i,
        analyse::plies_counted(c, p, g, i).0.games == c.games,
    decreases plies.len() - i,
{
    lemma_encoded(p, plies, scores, outcome, i, done);
    let n = plies.len();
    assert(games::plies_of(g) == n);
    if i < n {
        let record = record_of(p, plies, scores, i);
        let mv = record.mv;
        let next = done + record.bytes();
        lemma_meaning_is_legal(p, plies[i].text);
        lemma_record_back(p, plies, scores, i);
        let (after, fault) = analyse::ply_counted(c, p, g, i);
        moves::lemma_king_found(p.squares, Color::White, 0);
        moves::lemma_king_found(p.squares, Color::Black, 0);
        assert(fault is None && after.positions == c.positions + 1 && after.games == c.games) by {
            reveal(analyse::ply_counted);
            if i + 1 < n {
                lemma_replays(p, mv);
            }
        }
        assert(games::move_at(g, i) == mv) by {
            reveal(games::move_at);
        }
        if i + 1 < n {
            moves::law_positions_stay_fitting(p, mv);
        }
        assert(record.bytes().len() == 5);
        lemma_counted(after, p.after(mv), plies, scores, outcome, i + 1, next, g);
    }
}

/// Each record is read back.
proof fn lemma_record(
    p: Position,
    plies: Seq<PlyText>,
    scores: Seq<Option<i16>>,
    outcome: GameOutcome,
    h: Seq<u8>,
    i: int,
)
    requires
        h.len() == GAME_HEADER_SIZE,
        0 <= i < plies.len(),
        convert::encoded(p, plies, scores, outcome, 0, h).1 is Ok,
    ensures
        ({
            let g = convert::encoded(p, plies, scores, outcome, 0, h).0;
            let record = record_of(position_before(p, plies, i), plies, scores, i);
            &&& MoveRecord::of(games::record_at(g, i)) == Ok::<
                Option<MoveRecord>,
                crate::format::FormatError,
            >(Some(record))
            &&& games::record_at(g, i) != GAME_TERMINATOR@
        }),
{
    lemma_records(p, plies, scores, outcome, 0, h, i);
    lemma_record_back(position_before(p, plies, i), plies, scores, i);
}

/// What a header and encoded moves make.
proof fn lemma_whole(
    p: Position,
    plies: Seq<PlyText>,
    scores: Seq<Option<i16>>,
    outcome: GameOutcome,
    h: Seq<u8>,
    g: Seq<u8>,
)
    requires
        h.len() == GAME_HEADER_SIZE,
        header::header_fault(h) is None,
        convert::encoded(p, plies, scores, outcome, 0, h).0 == g,
        convert::encoded(p, plies, scores, outcome, 0, h).1 is Ok,
    ensures
        games::whole_game(g),
        g.take(32) == h,
        g.len() == GAME_HEADER_SIZE + 5 * plies.len() + 5,
        forall|i: int|
            0 <= i < plies.len() ==> MoveRecord::of(#[trigger] games::record_at(g, i)) == Ok::<
                Option<MoveRecord>,
                crate::format::FormatError,
            >(Some(record_of(position_before(p, plies, i), plies, scores, i))),
{
    lemma_encoded(p, plies, scores, outcome, 0, h);
    assert forall|i: int| 0 <= i < plies.len() implies MoveRecord::of(
        #[trigger] games::record_at(g, i),
    ) == Ok::<Option<MoveRecord>, crate::format::FormatError>(
        Some(record_of(position_before(p, plies, i), plies, scores, i)),
    ) && games::record_at(g, i) != GAME_TERMINATOR@ by {
        lemma_record(p, plies, scores, outcome, h, i);
    }
    lemma_records_make_game(g, plies.len() as int);
}

/// A valid header, records and a terminator make a game.
proof fn lemma_records_make_game(g: Seq<u8>, n: int)
    requires
        n >= 0,
        g.len() == GAME_HEADER_SIZE + 5 * n + 5,
        header::header_fault(g.take(32)) is None,
        forall|i: int| 0 <= i < n ==> #[trigger] games::record_at(g, i) != GAME_TERMINATOR@,
        games::record_at(g, n) == GAME_TERMINATOR@,
    ensures
        games::whole_game(g),
{
    assert forall|j: int|
        GAME_HEADER_SIZE <= j < g.len() - 5 && (j - GAME_HEADER_SIZE) % 5
            == 0 implies !#[trigger] games::ends_at(g, j) by {
        let i = (j - GAME_HEADER_SIZE) / 5;
        assert(games::record_at(g, i) == g.subrange(j, j + 5));
    }
    assert(games::record_at(g, n) == g.subrange(g.len() - 5, g.len() as int));
}

/// What a conversion that succeeds is made of.
proof fn lemma_converted(
    game: GameText,
    fill: Fill,
    bytes: Seq<u8>,
    scores: Seq<Option<i16>>,
) -> (r: (Position, GameOutcome, Seq<u8>))
    requires
        convert::converted(game, fill, bytes, scores).result is Ok,
    ensures
        ({
            let c = convert::converted(game, fill, bytes, scores);
            let (p, outcome, h) = r;
            &&& initial::first_position(game.fen) == Ok::<Position, (ErrorKind, Seq<char>)>(p)
            &&& game.result == Some(outcome)
            &&& header::pack_fault(p) is None
            &&& header::packs(p, outcome, h)
            &&& header::fitting(p)
            &&& convert::encoded(p, game.plies, c.scores, outcome, 0, h).0 == c.bytes
            &&& convert::encoded(p, game.plies, c.scores, outcome, 0, h).1 is Ok
        }),
{
    let p = initial::first_position(game.fen)->Ok_0;
    let outcome = game.result->0;
    initial::law_first_position_fits(game.fen);
    header::law_header_exists(p, outcome);
    (p, outcome, header::header_of(p, outcome))
}

/// The outcome of a packed header.
proof fn lemma_outcome(p: Position, outcome: GameOutcome, h: Seq<u8>)
    requires
        header::packs(p, outcome, h),
    ensures
        crate::format::outcome_of(h[30]) == Ok::<GameOutcome, crate::format::FormatError>(outcome),
{
}

/// A game that was converted is a game. Its header holds the position in which it starts and its
/// outcome, and it has a record for each ply: the move that is written, with its score.
pub proof fn law_converted_game_is_whole(
    game: GameText,
    fill: Fill,
    bytes: Seq<u8>,
    scores: Seq<Option<i16>>,
)
    requires
        convert::converted(game, fill, bytes, scores).result is Ok,
    ensures
        ({
            let c = convert::converted(game, fill, bytes, scores);
            let p = initial::first_position(game.fen)->Ok_0;
            &&& games::whole_game(c.bytes)
            &&& c.bytes.len() == GAME_HEADER_SIZE + 5 * game.plies.len() + 5
            &&& game.plies.len() <= movetext::MAX_PLIES ==> c.bytes.len() <= games::MAX_GAME_SIZE
            &&& header::unpacked(c.bytes.take(32)) == Ok::<Position, (ErrorKind, Seq<char>)>(p)
            &&& game.result == Some(crate::format::outcome_of(c.bytes[30])->Ok_0)
            &&& forall|i: int|
                0 <= i < game.plies.len() ==> MoveRecord::of(#[trigger] games::record_at(c.bytes, i))
                    == Ok::<Option<MoveRecord>, crate::format::FormatError>(
                    Some(
                        record_of(
                            position_before(p, game.plies, i),
                            game.plies,
                            c.scores,
                            i,
                        ),
                    ),
                )
        }),
{
    let (p, outcome, h) = lemma_converted(game, fill, bytes, scores);
    let c = convert::converted(game, fill, bytes, scores);
    header::lemma_pack_fault(p, outcome, h);
    lemma_whole(p, game.plies, c.scores, outcome, h, c.bytes);
    header::law_header_round_trip(p, outcome, h);
    lemma_outcome(p, outcome, h);
    assert(c.bytes[30] == c.bytes.take(32)[30]);
}

/// A game that was converted passes the analysis, and each of its plies is counted.
pub proof fn law_converted_game_is_counted(
    game: GameText,
    fill: Fill,
    bytes: Seq<u8>,
    scores: Seq<Option<i16>>,
    census: Census,
)
    requires
        convert::converted(game, fill, bytes, scores).result is Ok,
    ensures
        ({
            let g = convert::converted(game, fill, bytes, scores).bytes;
            let (after, r) = analyse::game_counted(census, g);
            &&& r is Ok
            &&& after.games == census.games + 1
            &&& after.positions == census.positions + game.plies.len()
        }),
{
    let (p, outcome, h) = lemma_converted(game, fill, bytes, scores);
    let c = convert::converted(game, fill, bytes, scores);
    header::lemma_pack_fault(p, outcome, h);
    lemma_whole(p, game.plies, c.scores, outcome, h, c.bytes);
    header::law_header_round_trip(p, outcome, h);
    let begun = Census {
        games: census.games + 1,
        outcomes: analyse::counted(census.outcomes, c.bytes[30] as int),
        ..census
    };
    assert(c.bytes[30] == c.bytes.take(32)[30]);
    lemma_counted(begun, p, game.plies, c.scores, outcome, 0, h, c.bytes);
}

/// A walk through a game that was encoded goes through.
proof fn lemma_walked(
    p: Position,
    plies: Seq<PlyText>,
    scores: Seq<Option<i16>>,
    outcome: GameOutcome,
    i: int,
    done: Seq<u8>,
    g: Seq<u8>,
    picks: Seq<bool>,
    samples: Seq<bullet::Sample>,
)
    requires
        0 <= i <= plies.len(),
        done.len() == GAME_HEADER_SIZE + 5 * i,
        convert::encoded(p, plies, scores, outcome, i, done).0 == g,
        convert::encoded(p, plies, scores, outcome, i, done).1 is Ok,
        i < plies.len() ==> steady(p) && p.number(None, None) <= 32,
        ({
            let q = before_last(p, plies, i);
            i < plies.len() ==> !(q.stm == Color::Black && q.fmc == u16::MAX)
        }),
    ensures
        bullet::walked(g, p, outcome, i, picks, samples).1 is Ok,
    decreases plies.len() - i,
{
    lemma_encoded(p, plies, scores, outcome, i, done);
    let n = plies.len();
    assert(games::plies_of(g) == n);
    if i < n {
        let record = record_of(p, plies, scores, i);
        let mv = record.mv;
        let next = done + record.bytes();
        lemma_meaning_is_legal(p, plies[i].text);
        lemma_record_back(p, plies, scores, i);
        lemma_replays(p, mv);
        assert(bullet::show_fault(p) is None);
        if i + 1 < n {
            moves::law_positions_stay_fitting(p, mv);
            moves::law_men_do_not_grow(p, mv);
        }
        assert(record.bytes().len() == 5);
        let more = if picks[i] {
            samples.push(
                bullet::Sample { position: p, white_score: record.white_score, outcome },
            )
        } else {
            samples
        };
        lemma_walked(p.after(mv), plies, scores, outcome, i + 1, next, g, picks, more);
    }
}

/// The position before the last ply, when `p` is the one before ply `i`.
pub open spec fn before_last(p: Position, plies: Seq<PlyText>, i: int) -> Position
    decreases plies.len() - i,
{
    if i + 1 >= plies.len() {
        p
    } else {
        before_last(p.after(move_of(p, plies, i)), plies, i + 1)
    }
}

/// A walk through a game that was converted goes through, whichever positions are chosen, unless
/// the last move is Black's and the number of the turn cannot grow.
pub proof fn law_converted_game_is_walked(
    game: GameText,
    fill: Fill,
    bytes: Seq<u8>,
    scores: Seq<Option<i16>>,
    picks: Seq<bool>,
)
    requires
        convert::converted(game, fill, bytes, scores).result is Ok,
        ({
            let q = before_last(initial::first_position(game.fen)->Ok_0, game.plies, 0);
            game.plies.len() > 0 ==> !(q.stm == Color::Black && q.fmc == u16::MAX)
        }),
    ensures
        ({
            let g = convert::converted(game, fill, bytes, scores).bytes;
            &&& bullet::walk_start(g) matches Ok((p, outcome))
            &&& bullet::walked(g, p, outcome, 0, picks, seq![]).1 is Ok
        }),
{
    let (p, outcome, h) = lemma_converted(game, fill, bytes, scores);
    let c = convert::converted(game, fill, bytes, scores);
    header::lemma_pack_fault(p, outcome, h);
    lemma_whole(p, game.plies, c.scores, outcome, h, c.bytes);
    header::law_header_round_trip(p, outcome, h);
    lemma_outcome(p, outcome, h);
    assert(c.bytes[30] == c.bytes.take(32)[30]);
    lemma_walked(p, game.plies, c.scores, outcome, 0, h, c.bytes, picks, seq![]);
}

/// What holds of every ply of a game that is encoded.
proof fn lemma_ply_holds(
    first: Position,
    plies: Seq<PlyText>,
    scores: Seq<Option<i16>>,
    outcome: GameOutcome,
    i: int,
    done: Seq<u8>,
    k: int,
)
    requires
        0 <= i <= k < plies.len(),
        convert::encoded(
            position_before(first, plies, i),
            plies,
            scores,
            outcome,
            i,
            done,
        ).1 is Ok,
    ensures
        ({
            let q = position_before(first, plies, k);
            &&& q.hmc < 100
            &&& notation::meaning(q, plies[k].text) is Ok
            &&& scores[k] is Some
            &&& q.takes_king(move_of(q, plies, k)) ==> k + 1 == plies.len() && outcome
                == convert::win_of(q.stm)
        }),
    decreases k - i,
{
    if i < k {
        let p = position_before(first, plies, i);
        let next = done + record_of(p, plies, scores, i).bytes();
        assert(position_before(first, plies, i + 1) == p.after(move_of(p, plies, i)));
        lemma_ply_holds(first, plies, scores, outcome, i + 1, next, k);
    }
}

/// In a game that was converted every move is legal and comes before a hundred quiet turns have
/// passed, and a king is taken only by the last move, for the side that has won.
pub proof fn law_converted_moves_are_legal(
    game: GameText,
    fill: Fill,
    bytes: Seq<u8>,
    scores: Seq<Option<i16>>,
    i: int,
)
    requires
        convert::converted(game, fill, bytes, scores).result is Ok,
        0 <= i < game.plies.len(),
    ensures
        ({
            let p = initial::first_position(game.fen)->Ok_0;
            let q = position_before(p, game.plies, i);
            let mv = move_of(q, game.plies, i);
            let target = q.on(mv.dest);
            &&& q.legal(mv)
            &&& q.hmc < 100
            &&& target is Some && target->0.piece == Piece::King && target->0.color != q.stm ==> {
                &&& i == game.plies.len() - 1
                &&& q.stm == Color::White ==> game.result == Some(GameOutcome::WhiteWin)
                &&& q.stm == Color::Black ==> game.result == Some(GameOutcome::BlackWin)
            }
        }),
{
    let (p, outcome, h) = lemma_converted(game, fill, bytes, scores);
    let c = convert::converted(game, fill, bytes, scores);
    lemma_ply_holds(p, game.plies, c.scores, outcome, 0, h, i);
    let q = position_before(p, game.plies, i);
    lemma_meaning_is_legal(q, game.plies[i].text);
    match q.stm {
        Color::White => {},
        Color::Black => {},
    }
}

proof fn lemma_accepted(c: Census, first: Position, g: Seq<u8>, i: int, k: int)
    requires
        0 <= i <= k < games::plies_of(g),
        analyse::plies_counted(c, bullet::walk_position(g, first, i), g, i).1 is Ok,
    ensures
        ({
            let q = bullet::walk_position(g, first, k);
            let r = MoveRecord::of(games::record_at(g, k));
            &&& r matches Ok(Some(_))
            &&& q.legal(r->Ok_0->0.mv)
            &&& q.hmc < 100
            &&& q.takes_king(r->Ok_0->0.mv) ==> k + 1 == games::plies_of(g) && g[30]
                == analyse::win_number(q.stm)
        }),
    decreases k - i,
{
    let p = bullet::walk_position(g, first, i);
    let (next, fault) = analyse::ply_counted(c, p, g, i);
    assert(fault is None);
    if i < k {
        assert(bullet::walk_position(g, first, i + 1) == p.after(games::move_at(g, i)));
        lemma_accepted(next, first, g, i + 1, k);
    } else {
        reveal(analyse::ply_counted);
    }
}

/// In a game that the analysis accepts every record is a legal move and comes before a hundred quiet
/// turns have passed, and a king is taken only by the last one, for the side that has won.
pub proof fn law_accepted_moves_are_legal(c: Census, g: Seq<u8>, i: int)
    requires
        analyse::game_counted(c, g).1 is Ok,
        0 <= i < games::plies_of(g),
    ensures
        ({
            let p = header::unpacked(g.take(32))->Ok_0;
            let q = bullet::walk_position(g, p, i);
            let r = MoveRecord::of(games::record_at(g, i));
            let target = q.on(r->Ok_0->0.mv.dest);
            &&& r matches Ok(Some(_))
            &&& q.legal(r->Ok_0->0.mv)
            &&& q.hmc < 100
            &&& target is Some && target->0.piece == Piece::King && target->0.color != q.stm ==> {
                &&& i == games::plies_of(g) - 1
                &&& q.stm == Color::White ==> g[30] == 2
                &&& q.stm == Color::Black ==> g[30] == 0
            }
        }),
{
    let p = header::unpacked(g.take(32))->Ok_0;
    let begun = Census {
        games: c.games + 1,
        outcomes: analyse::counted(c.outcomes, g[30] as int),
        ..c
    };
    lemma_accepted(begun, p, g, 0, i);
    let q = bullet::walk_position(g, p, i);
    match q.stm {
        Color::White => {},
        Color::Black => {},
    }
}

/// Whether ply `k` of a game can be stored: its text means a move, it has a score, fewer than a
/// hundred quiet turns have passed, a king is taken only by the last move and for the side that has
/// won, and before another move the number of the turn can grow.
pub open spec fn storable(
    first: Position,
    plies: Seq<PlyText>,
    scores: Seq<Option<i16>>,
    outcome: GameOutcome,
    k: int,
) -> bool {
    let q = position_before(first, plies, k);
    let mv = move_of(q, plies, k);
    let last = k == plies.len() - 1;
    let target = q.on(mv.dest);
    &&& notation::meaning(q, plies[k].text) is Ok
    &&& scores[k] is Some
    &&& q.hmc < 100
    &&& target is Some && target->0.piece == Piece::King && target->0.color != q.stm ==> {
        &&& last
        &&& q.stm == Color::White ==> outcome == GameOutcome::WhiteWin
        &&& q.stm == Color::Black ==> outcome == GameOutcome::BlackWin
    }
    &&& !last && q.stm == Color::Black ==> q.fmc < 65535
}

proof fn lemma_storable(
    first: Position,
    plies: Seq<PlyText>,
    scores: Seq<Option<i16>>,
    outcome: GameOutcome,
    i: int,
    done: Seq<u8>,
)
    requires
        0 <= i <= plies.len(),
    ensures
        convert::encoded(
            position_before(first, plies, i),
            plies,
            scores,
            outcome,
            i,
            done,
        ).1 is Ok <==> forall|k: int|
            i <= k < plies.len() ==> #[trigger] storable(first, plies, scores, outcome, k),
    decreases plies.len() - i,
{
    if i < plies.len() {
        let p = position_before(first, plies, i);
        let mv = move_of(p, plies, i);
        let next = done + record_of(p, plies, scores, i).bytes();
        assert(position_before(first, plies, i + 1) == p.after(mv));
        lemma_storable(first, plies, scores, outcome, i + 1, next);
        match p.stm {
            Color::White => {},
            Color::Black => {},
        }
        let here = notation::meaning(p, plies[i].text) is Ok && scores[i] is Some && p.hmc < 100
            && convert::ply_fault(p, mv, outcome, i + 1 == plies.len()) is None;
        assert(storable(first, plies, scores, outcome, i) <==> here);
        let e = convert::encoded(p, plies, scores, outcome, i, done).1;
        let rest = convert::encoded(p.after(mv), plies, scores, outcome, i + 1, next).1;
        assert(e is Ok <==> here && rest is Ok);
        if e is Ok {
            assert forall|k: int| i <= k < plies.len() implies #[trigger] storable(
                first,
                plies,
                scores,
                outcome,
                k,
            ) by {
                if k > i {
                    assert(i + 1 <= k);
                }
            }
        }
    }
}

/// A game is converted just if it has a result, its first position can be stored, and every ply can
/// be stored with its score.
pub proof fn law_what_is_converted(
    game: GameText,
    fill: Fill,
    bytes: Seq<u8>,
    scores: Seq<Option<i16>>,
)
    ensures
        convert::converted(game, fill, bytes, scores).result is Ok <==> {
            &&& game.result is Some
            &&& initial::first_position(game.fen) is Ok
            &&& header::pack_fault(initial::first_position(game.fen)->Ok_0) is None
            &&& ({
                let p = initial::first_position(game.fen)->Ok_0;
                let filled = convert::filled(convert::white_scores(game.plies, p.stm), fill);
                forall|k: int|
                    0 <= k < game.plies.len() ==> #[trigger] storable(
                        p,
                        game.plies,
                        filled,
                        game.result->0,
                        k,
                    )
            })
        },
{
    if game.result is Some && initial::first_position(game.fen) is Ok {
        let p = initial::first_position(game.fen)->Ok_0;
        let outcome = game.result->0;
        let filled = convert::filled(convert::white_scores(game.plies, p.stm), fill);
        lemma_storable(p, game.plies, filled, outcome, 0, header::header_of(p, outcome));
    }
}

/// Whether record `k` of a stored game is accepted: it is a legal move, both kings are there, fewer
/// than a hundred quiet turns have passed, a king is taken only by the last move and for the side
/// that has won, and a move that is not the last can be replayed.
pub open spec fn acceptable(first: Position, g: Seq<u8>, k: int) -> bool {
    let q = bullet::walk_position(g, first, k);
    let r = MoveRecord::of(games::record_at(g, k));
    let mv = r->Ok_0->0.mv;
    let last = k == games::plies_of(g) - 1;
    let target = q.on(mv.dest);
    &&& r matches Ok(Some(_))
    &&& q.legal(mv)
    &&& q.king(Color::White) is Some && q.king(Color::Black) is Some
    &&& q.hmc < 100
    &&& target is Some && target->0.piece == Piece::King && target->0.color != q.stm ==> {
        &&& last
        &&& q.stm == Color::White ==> g[30] == 2
        &&& q.stm == Color::Black ==> g[30] == 0
    }
    &&& !last ==> games::replay_fault(q, mv) is None
}

proof fn lemma_acceptable(c: Census, first: Position, g: Seq<u8>, i: int)
    requires
        0 <= i <= games::plies_of(g),
    ensures
        analyse::plies_counted(c, bullet::walk_position(g, first, i), g, i).1 is Ok <==> forall|k: int|
            i <= k < games::plies_of(g) ==> #[trigger] acceptable(first, g, k),
    decreases games::plies_of(g) - i,
{
    if i < games::plies_of(g) {
        let p = bullet::walk_position(g, first, i);
        let (next, fault) = analyse::ply_counted(c, p, g, i);
        assert(bullet::walk_position(g, first, i + 1) == p.after(games::move_at(g, i)));
        lemma_acceptable(next, first, g, i + 1);
        lemma_one_acceptable(c, first, g, i);
    }
}

proof fn lemma_one_acceptable(c: Census, first: Position, g: Seq<u8>, i: int)
    requires
        0 <= i < games::plies_of(g),
    ensures
        analyse::ply_counted(c, bullet::walk_position(g, first, i), g, i).1 is None <==> acceptable(
            first,
            g,
            i,
        ),
{
    reveal(analyse::ply_counted);
    let p = bullet::walk_position(g, first, i);
    match p.stm {
        Color::White => {},
        Color::Black => {},
    }
}

/// The analysis accepts a game just if its header holds a position and every record is acceptable.
pub proof fn law_what_is_accepted(c: Census, g: Seq<u8>)
    requires
        games::plies_of(g) >= 0,
    ensures
        analyse::game_counted(c, g).1 is Ok <==> header::unpacked(g.take(32)) is Ok && forall|k: int|
            0 <= k < games::plies_of(g) ==> #[trigger] acceptable(
                header::unpacked(g.take(32))->Ok_0,
                g,
                k,
            ),
{
    if header::unpacked(g.take(32)) is Ok {
        let p = header::unpacked(g.take(32))->Ok_0;
        let begun = Census {
            games: c.games + 1,
            outcomes: analyse::counted(c.outcomes, g[30] as int),
            ..c
        };
        lemma_acceptable(begun, p, g, 0);
    }
}

} // verus!
