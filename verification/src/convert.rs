//! Converting games of PGN to stored games.
use crate::board::{Board, Position};
use crate::common::{Color, Move};
use crate::error::{invalid, invalid_text, Error, ErrorKind};
use crate::format::{GameOutcome, MoveRecord, GAME_TERMINATOR};
use crate::games::within_ply;
use crate::header::pack_header;
use crate::initial::initial_board;
use crate::movetext::{Evaluation, Game, GameText, Ply, PlyText, Rating};
use crate::notation::parse_move;
use crate::{error, games, header, initial, movetext, notation, text};
use vstd::prelude::*;

verus! {

/// What is done about missing scores.
#[derive(Clone, Copy, Debug, PartialEq, Eq, Structural)]
pub enum Fill {
    /// They stay missing.
    Nothing,
    /// They get this value.
    Value(i16),
    /// They get the score before them.
    Prev,
    /// They get the score behind them.
    Next,
}

/// How games are converted.
#[derive(Clone, Copy, Debug, PartialEq, Eq, Structural)]
pub struct Options {
    pub fill: Fill,
    /// Whether games that cannot be converted are left out.
    pub skip_broken: bool,
}

/// The score that some notes give: that of the last note with a score.
pub open spec fn latest(notes: Seq<Rating>) -> Option<i16>
    decreases notes.len(),
{
    if notes.len() == 0 {
        None
    } else {
        match notes.last() {
            Rating::Score(v) => Some(v),
            _ => latest(notes.drop_last()),
        }
    }
}

/// The score of a ply from White's view, when `stm` is to move before ply 0. Written scores are
/// those of the side that moves.
pub open spec fn white_score(plies: Seq<PlyText>, stm: Color, i: int) -> Option<i16> {
    let black = (stm == Color::Black) != (i % 2 != 0);
    match latest(plies[i].notes) {
        Some(v) => Some(
            if black {
                (-v) as i16
            } else {
                v
            },
        ),
        None => None,
    }
}

/// The scores of the plies from White's view.
pub open spec fn white_scores(plies: Seq<PlyText>, stm: Color) -> Seq<Option<i16>> {
    Seq::new(plies.len(), |i: int| white_score(plies, stm, i))
}

/// The nearest score at or before `i`.
pub open spec fn before(scores: Seq<Option<i16>>, i: int) -> Option<i16>
    decreases i + 1,
{
    if i < 0 {
        None
    } else if scores[i] is Some {
        scores[i]
    } else {
        before(scores, i - 1)
    }
}

/// The nearest score at or behind `i`.
pub open spec fn behind(scores: Seq<Option<i16>>, i: int) -> Option<i16>
    decreases scores.len() - i,
{
    if i >= scores.len() {
        None
    } else if scores[i] is Some {
        scores[i]
    } else {
        behind(scores, i + 1)
    }
}

/// The score at `i` when missing ones are filled in.
pub open spec fn filled_at(scores: Seq<Option<i16>>, fill: Fill, i: int) -> Option<i16> {
    if scores[i] is Some {
        scores[i]
    } else {
        match fill {
            Fill::Nothing => None,
            Fill::Value(v) => Some(v),
            Fill::Prev => before(scores, i),
            Fill::Next => behind(scores, i),
        }
    }
}

/// The scores when missing ones are filled in.
pub open spec fn filled(scores: Seq<Option<i16>>, fill: Fill) -> Seq<Option<i16>> {
    Seq::new(scores.len(), |i: int| filled_at(scores, fill, i))
}

/// How many of the first `n` scores are filled in.
pub open spec fn fillings(scores: Seq<Option<i16>>, fill: Fill, n: int) -> int
    decreases n,
{
    if n <= 0 {
        0
    } else {
        fillings(scores, fill, n - 1) + if scores[n - 1] is None && filled_at(
            scores,
            fill,
            n - 1,
        ) is Some {
            1int
        } else {
            0
        }
    }
}

/// The outcome when the side `color` wins.
pub open spec fn win_of(color: Color) -> GameOutcome {
    match color {
        Color::White => GameOutcome::WhiteWin,
        Color::Black => GameOutcome::BlackWin,
    }
}

/// What is wrong with ply `i`, when it is `mv` in the position `p`, or `None` if the game goes on.
pub open spec fn ply_fault(
    p: Position,
    mv: Move,
    outcome: GameOutcome,
    last: bool,
) -> Option<Seq<char>> {
    if p.takes_king(mv) && (!last || outcome != win_of(p.stm)) {
        Some("king capture must end the game with the matching result"@)
    } else if !last && p.stm == Color::Black && p.fmc == u16::MAX {
        Some("fullmove counter overflow"@)
    } else {
        None
    }
}

/// The bytes of a game from ply `i` on, in the position `p`, behind the bytes `done`. Each move must
/// be legal and have a score, and a king may only be taken by the last move.
pub open spec fn encoded(
    p: Position,
    plies: Seq<PlyText>,
    scores: Seq<Option<i16>>,
    outcome: GameOutcome,
    i: int,
    done: Seq<u8>,
) -> (Seq<u8>, Result<(), (ErrorKind, Seq<char>)>)
    decreases plies.len() - i,
{
    if i >= plies.len() {
        (done + GAME_TERMINATOR@, Ok(()))
    } else if p.hmc >= 100 {
        (done, Err(error::bad("moves after fifty-move draw"@)))
    } else {
        match notation::meaning(p, plies[i].text) {
            Err(m) => (done, Err(error::bad(games::ply_place(i) + m))),
            Ok(mv) => match scores[i] {
                None => (
                    done,
                    Err(
                        error::bad(
                            "missing evaluation at ply "@ + text::decimal((i + 1) as nat)
                                + " (use --fill-missing-evals)"@,
                        ),
                    ),
                ),
                Some(white_score) => {
                    let next = done + (MoveRecord { mv, white_score }).bytes();
                    match ply_fault(p, mv, outcome, i + 1 == plies.len()) {
                        Some(m) => (next, Err(error::bad(m))),
                        None => encoded(p.after(mv), plies, scores, outcome, i + 1, next),
                    }
                },
            },
        }
    }
}

/// What a game is converted to: its bytes, the scores of its plies, and how many of them were
/// filled in.
#[verifier::ext_equal]
pub struct Converted {
    pub bytes: Seq<u8>,
    pub scores: Seq<Option<i16>>,
    pub result: Result<int, (ErrorKind, Seq<char>)>,
}

/// What comes of converting `g`, when the buffers hold `bytes` and `scores` before.
pub open spec fn converted(
    g: GameText,
    fill: Fill,
    bytes: Seq<u8>,
    scores: Seq<Option<i16>>,
) -> Converted {
    match (g.result, initial::first_position(g.fen)) {
        (None, _) => Converted {
            bytes,
            scores,
            result: Err(error::bad("unfinished game"@)),
        },
        (_, Err(e)) => Converted { bytes, scores, result: Err(e) },
        (Some(outcome), Ok(p)) => match header::pack_fault(p) {
            Some(m) => Converted { bytes: seq![], scores, result: Err(error::bad(m)) },
            None => {
                let h = header::header_of(p, outcome);
                let raw = white_scores(g.plies, p.stm);
                let (all, r) = encoded(p, g.plies, filled(raw, fill), outcome, 0, h);
                Converted {
                    bytes: all,
                    scores: filled(raw, fill),
                    result: match r {
                        Ok(()) => Ok(fillings(raw, fill, g.plies.len() as int)),
                        Err(e) => Err(e),
                    },
                }
            },
        },
    }
}

/// The score that some notes give.
fn latest_score(notes: &Vec<Evaluation>) -> (r: Option<i16>)
    ensures
        r == latest(movetext::ratings(notes@)),
{
    let ghost all = movetext::ratings(notes@);
    let mut n = notes.len();
    assert(all.take(n as int) =~= all);
    while n > 0
        invariant
            n <= notes@.len(),
            all == movetext::ratings(notes@),
            latest(all) == latest(all.take(n as int)),
        decreases n,
    {
        assert(all.take(n as int).drop_last() =~= all.take(n - 1));
        assert(all.take(n as int).last() == notes@[n - 1]@);
        n -= 1;
        if let Evaluation::Score(v) = notes[n] {
            return Some(v);
        }
    }
    None
}

/// Whether every score in some notes has a negative.
pub open spec fn symmetric(notes: Seq<Rating>) -> bool {
    forall|i: int| 0 <= i < notes.len() ==> #[trigger] notes[i] != Rating::Score(i16::MIN)
}

proof fn lemma_latest(notes: Seq<Rating>)
    requires
        symmetric(notes),
    ensures
        latest(notes) != Some(i16::MIN),
    decreases notes.len(),
{
    if notes.len() > 0 {
        assert(notes.last() == notes[notes.len() - 1]);
        assert(symmetric(notes.drop_last()));
        lemma_latest(notes.drop_last());
    }
}

/// The scores of the plies from White's view.
fn scores_for_white(plies: &Vec<Ply>, stm: Color) -> (r: Vec<Option<i16>>)
    requires
        forall|i: int|
            0 <= i < plies@.len() ==> symmetric((#[trigger] movetext::ply_texts(plies@)[i]).notes),
    ensures
        r@ == white_scores(movetext::ply_texts(plies@), stm),
{
    let ghost texts = movetext::ply_texts(plies@);
    let mut r: Vec<Option<i16>> = Vec::new();
    let mut i: usize = 0;
    while i < plies.len()
        invariant
            i <= plies@.len(),
            texts == movetext::ply_texts(plies@),
            r@ == white_scores(texts, stm).take(i as int),
            forall|j: int| 0 <= j < plies@.len() ==> symmetric((#[trigger] texts[j]).notes),
        decreases plies@.len() - i,
    {
        let black = (stm == Color::Black) != (i % 2 != 0);
        assert(texts[i as int] == plies@[i as int]@);
        proof {
            lemma_latest(texts[i as int].notes);
        }
        let score = match latest_score(&plies[i].notes) {
            Some(v) => Some(
                if black {
                    -v
                } else {
                    v
                },
            ),
            None => None,
        };
        r.push(score);
        i += 1;
        assert(white_scores(texts, stm).take(i as int) =~= white_scores(texts, stm).take(
            i - 1,
        ).push(score));
    }
    assert(white_scores(texts, stm).take(i as int) =~= white_scores(texts, stm));
    r
}

/// Fills in missing scores from the front.
fn fill_forward(raw: &Vec<Option<i16>>, fill: Fill) -> (r: (Vec<Option<i16>>, u64))
    requires
        fill != Fill::Next,
    ensures
        r.0@ == filled(raw@, fill),
        r.1 == fillings(raw@, fill, raw@.len() as int),
{
    let mut scores: Vec<Option<i16>> = Vec::new();
    let mut missing: u64 = 0;
    let mut carry: Option<i16> = None;
    let mut i: usize = 0;
    while i < raw.len()
        invariant
            i <= raw@.len(),
            fill != Fill::Next,
            scores@ == filled(raw@, fill).take(i as int),
            carry == before(raw@, i - 1) || !(fill is Prev),
            missing == fillings(raw@, fill, i as int),
            missing <= i,
        decreases raw@.len() - i,
    {
        let mut score = raw[i];
        if score.is_none() {
            score =
            match fill {
                Fill::Value(v) => Some(v),
                Fill::Prev => carry,
                _ => None,
            };
            if score.is_some() {
                missing += 1;
            }
        }
        if score.is_some() {
            carry = score;
        }
        scores.push(score);
        i += 1;
        assert(filled(raw@, fill).take(i as int) =~= filled(raw@, fill).take(i - 1).push(score));
    }
    assert(filled(raw@, fill).take(i as int) =~= filled(raw@, fill));
    (scores, missing)
}

/// Fills in missing scores from the back.
fn fill_backward(raw: &Vec<Option<i16>>) -> (r: (Vec<Option<i16>>, u64))
    ensures
        r.0@ == filled(raw@, Fill::Next),
        r.1 == fillings(raw@, Fill::Next, raw@.len() as int),
{
    let fill = Fill::Next;
    let n = raw.len();
    let mut scores: Vec<Option<i16>> = Vec::new();
    let mut i: usize = 0;
    while i < n
        invariant
            i <= n,
            scores@ == raw@.take(i as int),
            n == raw@.len(),
        decreases n - i,
    {
        scores.push(raw[i]);
        i += 1;
        assert(raw@.take(i as int) =~= raw@.take(i - 1).push(raw@[i - 1]));
    }
    assert(raw@.take(n as int) =~= raw@);
    let mut missing: u64 = 0;
    let mut carry: Option<i16> = None;
    let mut k = n;
    while k > 0
        invariant
            k <= n,
            n == raw@.len(),
            fill == Fill::Next,
            scores@.len() == n,
            forall|j: int| 0 <= j < k ==> #[trigger] scores@[j] == raw@[j],
            forall|j: int| k <= j < n ==> #[trigger] scores@[j] == filled_at(raw@, fill, j),
            carry == behind(raw@, k as int),
            missing == fillings(raw@, fill, n as int) - fillings(raw@, fill, k as int),
            missing <= n - k,
        decreases k,
    {
        k -= 1;
        let mut score = raw[k];
        if score.is_none() {
            score = carry;
            if score.is_some() {
                missing += 1;
            }
        }
        if score.is_some() {
            carry = score;
        }
        scores.set(k, score);
    }
    assert(scores@ =~= filled(raw@, fill));
    (scores, missing)
}

/// The error for ply `i` without a score.
fn no_score(i: usize) -> (r: Error)
    requires
        i < usize::MAX,
    ensures
        r@ == error::bad(
            "missing evaluation at ply "@ + text::decimal((i + 1) as nat)
                + " (use --fill-missing-evals)"@,
        ),
{
    let mut s = "missing evaluation at ply ".to_owned();
    text::push_decimal(&mut s, i as u64 + 1);
    s.append(" (use --fill-missing-evals)");
    invalid_text(s)
}

/// Checks ply `mv` in the position of `board`.
fn check_ply(board: &Board, mv: Move, outcome: GameOutcome, last: bool) -> (r: Result<(), Error>)
    ensures
        error::agrees(r, header::checked(ply_fault(board@, mv, outcome, last), ())),
{
    if board.is_king_capture(mv) {
        let winner = match board.stm {
            Color::White => GameOutcome::WhiteWin,
            Color::Black => GameOutcome::BlackWin,
        };
        if !last || outcome != winner {
            return Err(invalid("king capture must end the game with the matching result"));
        }
    }
    if !last && board.stm == Color::Black && board.fmc == u16::MAX {
        return Err(invalid("fullmove counter overflow"));
    }
    Ok(())
}

/// Appends the moves of a game and its terminator.
fn encode(
    start: &Board,
    plies: &Vec<Ply>,
    scores: &Vec<Option<i16>>,
    outcome: GameOutcome,
    bytes: &mut Vec<u8>,
) -> (r: Result<(), Error>)
    requires
        scores@.len() == plies@.len(),
    ensures
        ({
            let e = encoded(
                start@,
                movetext::ply_texts(plies@),
                scores@,
                outcome,
                0,
                old(bytes)@,
            );
            error::agrees(r, e.1) && final(bytes)@ == e.0
        }),
{
    let ghost texts = movetext::ply_texts(plies@);
    let mut board = *start;
    let mut i: usize = 0;
    while i < plies.len()
        invariant
            i <= plies@.len(),
            scores@.len() == plies@.len(),
            texts == movetext::ply_texts(plies@),
            encoded(start@, texts, scores@, outcome, 0, old(bytes)@) == encoded(
                board@,
                texts,
                scores@,
                outcome,
                i as int,
                bytes@,
            ),
        decreases plies@.len() - i,
    {
        if board.hmc >= 100 {
            return Err(invalid("moves after fifty-move draw"));
        }
        assert(texts[i as int] == plies@[i as int]@);
        let mv = match parse_move(&board, plies[i].text()) {
            Ok(mv) => mv,
            Err(e) => {
                return Err(within_ply(i, e));
            },
        };
        let white_score = match scores[i] {
            Some(score) => score,
            None => {
                return Err(no_score(i));
            },
        };
        let record = MoveRecord { mv, white_score };
        let packed = record.to_bytes();
        append(bytes, &packed);
        let last = i + 1 == plies.len();
        match check_ply(&board, mv, outcome, last) {
            Ok(()) => {},
            Err(e) => {
                return Err(e);
            },
        }
        i += 1;
        if last {
            assert(encoded(board@.after(mv), texts, scores@, outcome, i as int, bytes@) == encoded(
                board@,
                texts,
                scores@,
                outcome,
                i as int,
                bytes@,
            ));
        } else {
            board.make_move(mv);
        }
    }
    append(bytes, &GAME_TERMINATOR);
    Ok(())
}

/// Appends five bytes.
fn append(bytes: &mut Vec<u8>, five: &[u8; 5])
    ensures
        final(bytes)@ == old(bytes)@ + five@,
{
    let mut i: usize = 0;
    while i < 5
        invariant
            i <= 5,
            bytes@ == old(bytes)@ + five@.take(i as int),
        decreases 5 - i,
    {
        bytes.push(five[i]);
        i += 1;
        assert(bytes@ =~= old(bytes)@ + five@.take(i as int));
    }
    assert(five@.take(5) =~= five@);
}

/// Converts a game. On success `bytes` holds the stored game, and the number of scores that were
/// filled in is returned. `scores` holds the scores from White's view.
pub fn convert(
    game: &Game,
    options: Options,
    bytes: &mut Vec<u8>,
    scores: &mut Vec<Option<i16>>,
) -> (r: Result<u64, Error>)
    requires
        forall|i: int| 0 <= i < game@.plies.len() ==> symmetric((#[trigger] game@.plies[i]).notes),
    ensures
        ({
            let c = converted(game@, options.fill, old(bytes)@, old(scores)@);
            &&& final(bytes)@ == c.bytes
            &&& final(scores)@ == c.scores
            &&& match (r, c.result) {
                (Ok(n), Ok(m)) => n == m,
                (Err(e), Err(f)) => e@ == f,
                _ => false,
            }
        }),
{
    let result = match game.result {
        Some(result) => result,
        None => {
            return Err(invalid("unfinished game"));
        },
    };
    let start = match &game.fen {
        Some(fen) => initial_board(Some(fen.as_str())),
        None => initial_board(None),
    };
    let board = match start {
        Ok(board) => board,
        Err(e) => {
            return Err(e);
        },
    };
    bytes.clear();
    let h = match pack_header(&board, result) {
        Ok(h) => h,
        Err(e) => {
            return Err(e);
        },
    };
    proof {
        header::law_one_header(board@, result, h@, header::header_of(board@, result));
    }
    bytes.extend_from_slice(&h);
    assert(bytes@ =~= h@);
    let raw = scores_for_white(&game.plies, board.stm);
    let (all, missing) = match options.fill {
        Fill::Next => fill_backward(&raw),
        _ => fill_forward(&raw, options.fill),
    };
    *scores = all;
    match encode(&board, &game.plies, scores, result, bytes) {
        Ok(()) => Ok(missing),
        Err(e) => Err(e),
    }
}

/// Filling in keeps the scores that are there. With a value, none is missing afterwards. Filling in
/// once more changes nothing.
pub proof fn law_filling_keeps_scores(scores: Seq<Option<i16>>, fill: Fill)
    ensures
        filled(scores, fill).len() == scores.len(),
        forall|i: int|
            0 <= i < scores.len() && (#[trigger] scores[i]) is Some ==> filled(scores, fill)[i]
                == scores[i],
        fill is Value ==> forall|i: int|
            0 <= i < scores.len() ==> (#[trigger] filled(scores, fill)[i]) is Some,
        filled(filled(scores, fill), fill) == filled(scores, fill),
{
    let once = filled(scores, fill);
    assert forall|i: int| 0 <= i < scores.len() implies filled_at(once, fill, i)
        == #[trigger] once[i] by {
        if once[i] is None {
            match fill {
                Fill::Prev => {
                    lemma_none_before(scores, i);
                },
                Fill::Next => {
                    lemma_none_behind(scores, i);
                },
                _ => {},
            }
        }
    }
    assert(filled(once, fill) =~= once);
}

proof fn lemma_none_before(scores: Seq<Option<i16>>, i: int)
    requires
        -1 <= i < scores.len(),
        before(scores, i) is None,
    ensures
        before(filled(scores, Fill::Prev), i) is None,
    decreases i + 1,
{
    if i >= 0 {
        lemma_none_before(scores, i - 1);
    }
}

proof fn lemma_none_behind(scores: Seq<Option<i16>>, i: int)
    requires
        0 <= i <= scores.len(),
        behind(scores, i) is None,
    ensures
        behind(filled(scores, Fill::Next), i) is None,
    decreases scores.len() - i,
{
    if i < scores.len() {
        lemma_none_behind(scores, i + 1);
    }
}

/// A missing score gets the score just before it, or just behind it, which may have been filled in
/// itself. The first one has none before it, and the last none behind it. With a value, it gets the
/// value.
pub proof fn law_gaps_are_filled(scores: Seq<Option<i16>>, i: int, v: i16)
    requires
        0 <= i < scores.len(),
        scores[i] is None,
    ensures
        i > 0 ==> filled(scores, Fill::Prev)[i] == filled(scores, Fill::Prev)[i - 1],
        i == 0 ==> filled(scores, Fill::Prev)[i] is None,
        i + 1 < scores.len() ==> filled(scores, Fill::Next)[i] == filled(scores, Fill::Next)[i + 1],
        i + 1 == scores.len() ==> filled(scores, Fill::Next)[i] is None,
        filled(scores, Fill::Value(v))[i] == Some(v),
        filled(scores, Fill::Nothing)[i] is None,
{
    if i == 0 {
        assert(before(scores, -1) is None);
    }
    if i + 1 == scores.len() {
        assert(behind(scores, i + 1) is None);
    }
}

/// How many of the first `n` scores are there.
pub open spec fn given(scores: Seq<Option<i16>>, n: int) -> int
    decreases n,
{
    if n <= 0 {
        0
    } else if scores[n - 1] is Some {
        given(scores, n - 1) + 1
    } else {
        given(scores, n - 1)
    }
}

/// As many scores are counted as filled in as there are more afterwards.
pub proof fn law_fillings_are_counted(scores: Seq<Option<i16>>, fill: Fill, n: int)
    requires
        0 <= n <= scores.len(),
    ensures
        fillings(scores, fill, n) == given(filled(scores, fill), n) - given(scores, n),
    decreases n,
{
    if n > 0 {
        law_fillings_are_counted(scores, fill, n - 1);
    }
}

/// The score of a move is that of its last note with a score.
pub proof fn law_last_score_counts(notes: Seq<Rating>, note: Rating)
    ensures
        latest(notes.push(note)) == match note {
            Rating::Score(v) => Some(v),
            _ => latest(notes),
        },
        latest(seq![]) is None,
{
    assert(notes.push(note).drop_last() =~= notes);
}

/// Scores are written from the view of the side that moves: White's as they are, Black's with the
/// sign turned, and the sides take turns.
pub proof fn law_scores_take_turns(plies: Seq<PlyText>, stm: Color, i: int)
    requires
        0 <= i < plies.len(),
        latest(plies[i].notes) != Some(i16::MIN),
    ensures
        ({
            let other = match stm {
                Color::White => Color::Black,
                Color::Black => Color::White,
            };
            let here = white_scores(plies, stm)[i];
            &&& i == 0 && stm == Color::White ==> here == latest(plies[0].notes)
            &&& here is Some <==> latest(plies[i].notes) is Some
            &&& here is Some ==> white_scores(plies, other)[i] is Some && here->0
                == -white_scores(plies, other)[i]->0
            &&& i > 0 ==> here == white_scores(plies.skip(1), other)[i - 1]
        }),
{
    if i > 0 {
        assert(plies.skip(1)[i - 1] == plies[i]);
        assert((i - 1) % 2 != i % 2);
    }
}

} // verus!
