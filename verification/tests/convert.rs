use wakformat::analyse::Stats;
use wakformat::board::Board;
use wakformat::bullet::Walk;
use wakformat::common::{Move, MoveFlag, Square};
use wakformat::convert::{convert, Fill, Options};
use wakformat::error::{Error, ErrorKind};
use wakformat::format::{
    pack_header, read_game, unpack_header, GameOutcome, MoveRecord, GAME_TERMINATOR,
};
use wakformat::games::Progress;
use wakformat::movetext::{Evaluation, Game, Ply};

fn sq(name: &str) -> Square {
    let b = name.as_bytes();
    Square::index((b[1] - b'1') as usize * 8 + (b[0] - b'a') as usize)
}

fn mv(src: &str, dest: &str, duck: &str, flag: MoveFlag) -> Move {
    Move { src: sq(src), dest: sq(dest), duck: sq(duck), flag }
}

fn bad(message: &str) -> Error {
    Error { kind: ErrorKind::InvalidData, message: message.to_owned() }
}

fn ply(text: &str, score: Option<i16>) -> Ply {
    let mut ply = Ply::new(text).unwrap();
    if let Some(v) = score {
        ply.notes.push(Evaluation::Score(v));
    }
    ply
}

fn game(fen: Option<&str>, result: Option<GameOutcome>, plies: &[(&str, Option<i16>)]) -> Game {
    Game {
        fen: fen.map(|s| s.to_owned()),
        result,
        initial_notes: Vec::new(),
        plies: plies.iter().map(|&(text, score)| ply(text, score)).collect(),
    }
}

fn options(fill: Fill) -> Options {
    Options { fill, skip_broken: false }
}

fn run(game: &Game, fill: Fill) -> Result<(Vec<u8>, Vec<Option<i16>>, u64), Error> {
    let mut bytes = vec![1, 2, 3];
    let mut scores = vec![None];
    let n = convert(game, options(fill), &mut bytes, &mut scores)?;
    Ok((bytes, scores, n))
}

fn three(scores: [Option<i16>; 3]) -> Game {
    game(
        None,
        Some(GameOutcome::Draw),
        &[("e4@e3", scores[0]), ("e5@e6", scores[1]), ("Nf3@a6", scores[2])],
    )
}

#[test]
fn converted_game_has_all_its_parts() {
    let (bytes, scores, filled) = run(&three([Some(30), Some(-20), Some(11)]), Fill::Nothing).unwrap();
    let mut expected = pack_header(&Board::startpos(), GameOutcome::Draw).unwrap().to_vec();
    for (m, white_score) in [
        (mv("e2", "e4", "e3", MoveFlag::DoublePush), 30),
        (mv("e7", "e5", "e6", MoveFlag::DoublePush), 20),
        (mv("g1", "f3", "a6", MoveFlag::Normal), 11),
    ] {
        expected.extend_from_slice(&MoveRecord { mv: m, white_score }.to_bytes());
    }
    expected.extend_from_slice(&GAME_TERMINATOR);
    assert_eq!(bytes, expected);
    assert_eq!(scores, vec![Some(30), Some(20), Some(11)]);
    assert_eq!(filled, 0);
}

#[test]
fn converted_game_can_be_used() {
    let (bytes, _, _) = run(&three([Some(1), None, None]), Fill::Prev).unwrap();
    let mut read = Vec::new();
    assert_eq!(read_game(&bytes, &mut read), Ok(Progress::More(32)));
    assert_eq!(read_game(&bytes[32..], &mut read), Ok(Progress::Complete(20)));
    assert_eq!(read, bytes);
    let mut header = [0; 32];
    header.copy_from_slice(&bytes[..32]);
    assert_eq!(unpack_header(&header), Ok(Board::startpos()));
    let mut stats = Stats::new(false);
    assert_eq!(stats.game(&bytes), Ok(()));
    assert_eq!((stats.games, stats.positions), (1, 3));
    let mut walk = Walk::start(&bytes).unwrap();
    let mut shown = 0;
    while let Some(record) = walk.record(&bytes).unwrap() {
        if walk.step(record, true).unwrap().is_some() {
            shown += 1;
        }
    }
    assert_eq!(shown, 3);
}

#[test]
fn scores_belong_to_the_side_that_moves() {
    let g = game(
        Some("4k3/8/8/8/8/8/8/4K3 b - - 0 1"),
        Some(GameOutcome::Draw),
        &[("Ke7@a1", Some(5)), ("Ke2@a2", Some(6)), ("Ke6@a1", Some(7))],
    );
    assert_eq!(run(&g, Fill::Nothing).unwrap().1, vec![Some(-5), Some(6), Some(-7)]);
}

#[test]
fn last_score_of_a_move_counts() {
    let mut g = three([Some(1), Some(2), Some(3)]);
    g.plies[0].notes.push(Evaluation::Score(9));
    g.plies[0].notes.push(Evaluation::Missing);
    g.plies[2].notes.push(Evaluation::Number("x".to_owned()));
    assert_eq!(run(&g, Fill::Nothing).unwrap().1, vec![Some(9), Some(-2), Some(3)]);
}

#[test]
fn missing_scores() {
    let gaps = three([None, Some(8), None]);
    assert_eq!(
        run(&gaps, Fill::Nothing),
        Err(bad("missing evaluation at ply 1 (use --fill-missing-evals)"))
    );
    let (_, scores, n) = run(&gaps, Fill::Value(-3)).unwrap();
    assert_eq!((scores, n), (vec![Some(-3), Some(-8), Some(-3)], 2));
    assert_eq!(
        run(&gaps, Fill::Prev),
        Err(bad("missing evaluation at ply 1 (use --fill-missing-evals)"))
    );
    assert_eq!(
        run(&gaps, Fill::Next),
        Err(bad("missing evaluation at ply 3 (use --fill-missing-evals)"))
    );
    let (_, scores, n) = run(&three([Some(4), None, None]), Fill::Prev).unwrap();
    assert_eq!((scores, n), (vec![Some(4), Some(4), Some(4)], 2));
    let (_, scores, n) = run(&three([None, Some(8), Some(2)]), Fill::Next).unwrap();
    assert_eq!((scores, n), (vec![Some(-8), Some(-8), Some(2)], 1));
}

#[test]
fn filling_in_twice_changes_nothing() {
    let mut g = three([Some(4), None, None]);
    let (bytes, scores, _) = run(&g, Fill::Prev).unwrap();
    for (i, score) in scores.iter().enumerate() {
        let white = score.unwrap();
        g.plies[i].notes = vec![Evaluation::Score(if i % 2 == 0 { white } else { -white })];
    }
    assert_eq!(run(&g, Fill::Prev), Ok((bytes, scores, 0)));
}

#[test]
fn games_that_cannot_be_converted() {
    let start = "4k3/8/8/8/8/8/8/4K2R w - - 99 1";
    let taken = "4k3/8/8/8/8/8/8/K3R3 w - - 0 1";
    let late = "4k3/8/8/8/8/8/8/K3R3 b - - 0 65535";
    let cases = [
        (game(None, None, &[]), "unfinished game"),
        (game(Some("x"), Some(GameOutcome::Draw), &[]), "invalid initial PGN FEN"),
        (
            game(Some("4k3/8/8/8/8/8/8/4K3 w - - 0 0"), Some(GameOutcome::Draw), &[]),
            "invalid Wakformat game header",
        ),
        (
            game(None, Some(GameOutcome::Draw), &[("e4@e3", Some(0)), ("e4@e3", Some(0))]),
            "ply 2: illegal move or missing duck placement: e4@e3",
        ),
        (
            game(
                Some(start),
                Some(GameOutcome::Draw),
                &[("Rh2@a1", Some(0)), ("Ke7@a2", Some(0))],
            ),
            "moves after fifty-move draw",
        ),
        (
            game(Some(taken), Some(GameOutcome::BlackWin), &[("Rxe8", Some(0))]),
            "king capture must end the game with the matching result",
        ),
        (
            game(
                Some(taken),
                Some(GameOutcome::WhiteWin),
                &[("Rxe8", Some(0)), ("a6@a5", Some(0))],
            ),
            "king capture must end the game with the matching result",
        ),
        (
            game(
                Some(late),
                Some(GameOutcome::Draw),
                &[("Kd7@a2", Some(0)), ("Ka2@a1", Some(0))],
            ),
            "fullmove counter overflow",
        ),
    ];
    for (g, message) in cases {
        assert_eq!(run(&g, Fill::Nothing), Err(bad(message)));
    }
}

#[test]
fn king_capture_ends_a_game() {
    let fen = "4k3/8/8/8/8/8/8/K3R3 w - - 0 1";
    let g = game(Some(fen), Some(GameOutcome::WhiteWin), &[("Rxe8", Some(0))]);
    let (bytes, _, _) = run(&g, Fill::Nothing).unwrap();
    assert_eq!(bytes.len(), 42);
    let mut stats = Stats::new(false);
    assert_eq!(stats.game(&bytes), Ok(()));
}

#[test]
fn last_move_of_the_last_turn() {
    let fen = "4k3/8/8/8/8/8/8/K3R3 b - - 0 65535";
    let g = game(Some(fen), Some(GameOutcome::Draw), &[("Kd7@a2", Some(0))]);
    let (bytes, _, _) = run(&g, Fill::Nothing).unwrap();
    let mut stats = Stats::new(false);
    assert_eq!(stats.game(&bytes), Ok(()));
    let mut walk = Walk::start(&bytes).unwrap();
    let record = walk.record(&bytes).unwrap().unwrap();
    assert_eq!(walk.step(record, false), Err(bad("invalid move during replay")));
}

#[test]
fn buffers_after_an_error() {
    let mut bytes = vec![7];
    let mut scores = vec![Some(7)];
    let g = game(None, None, &[]);
    assert!(convert(&g, options(Fill::Nothing), &mut bytes, &mut scores).is_err());
    assert_eq!((bytes.clone(), scores.clone()), (vec![7], vec![Some(7)]));
    let g = three([Some(1), Some(2), None]);
    assert!(convert(&g, options(Fill::Nothing), &mut bytes, &mut scores).is_err());
    assert_eq!(bytes.len(), 42);
    assert_eq!(scores, vec![Some(1), Some(-2), None]);
}
