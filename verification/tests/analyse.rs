use wakformat::analyse::Stats;
use wakformat::board::Board;
use wakformat::common::{Color, Move, MoveFlag, Piece, Square};
use wakformat::error::{Error, ErrorKind};
use wakformat::format::{pack_header, GameOutcome, MoveRecord, GAME_TERMINATOR};

fn sq(name: &str) -> Square {
    let b = name.as_bytes();
    Square::index((b[1] - b'1') as usize * 8 + (b[0] - b'a') as usize)
}

fn mv(src: &str, dest: &str, duck: &str, flag: MoveFlag) -> Move {
    Move { src: sq(src), dest: sq(dest), duck: sq(duck), flag }
}

fn bad(message: &str) -> Error {
    Error { kind: ErrorKind::InvalidData, message: message.to_owned() }
}

fn stored(fen: &str, outcome: GameOutcome, moves: &[(Move, i16)]) -> Vec<u8> {
    let mut g = pack_header(&Board::from_fen(fen).unwrap(), outcome).unwrap().to_vec();
    for &(mv, white_score) in moves {
        g.extend_from_slice(&MoveRecord { mv, white_score }.to_bytes());
    }
    g.extend_from_slice(&GAME_TERMINATOR);
    g
}

const START: &str = "rnbqkbnr/pppppppp/8/8/8/8/PPPPPPPP/RNBQKBNR w KQkq - 0 1";

fn opening() -> Vec<u8> {
    stored(
        START,
        GameOutcome::WhiteWin,
        &[
            (mv("e2", "e4", "e3", MoveFlag::DoublePush), 30),
            (mv("d7", "d5", "d6", MoveFlag::DoublePush), -20),
            (mv("e4", "d5", "e4", MoveFlag::Capture), 5),
        ],
    )
}

#[test]
fn nothing_counted() {
    let s = Stats::new(false);
    assert_eq!((s.games, s.positions, s.exits), (0, 0, 0));
    assert_eq!((s.kings.len(), s.ducks.len(), s.scores.len()), (64, 65, 65536));
    assert_eq!((s.material.len(), s.phases.len(), s.pieces.len()), (33, 25, 396));
    assert_eq!(s.unique_count(), Some(0));
    let s = Stats::new(true);
    assert_eq!(s.unique_count(), None);
    assert_eq!(s.empty_registers(), 1 << 20);
}

#[test]
fn counting_a_game() {
    let mut s = Stats::new(false);
    assert_eq!(s.game(&opening()), Ok(()));
    assert_eq!((s.games, s.positions, s.exits), (1, 3, 30));
    assert_eq!(s.outcomes, vec![0, 0, 1]);
    assert_eq!(s.unique_count(), Some(3));
    assert_eq!(s.scores[32768 + 30], 1);
    assert_eq!(s.scores[32768 - 20], 1);
    assert_eq!(s.scores[32768 + 5], 1);
    // Both kings stand on e1 as their side sees it.
    assert_eq!(s.kings[4], 3);
    assert_eq!(s.king_count(0, 4, false), 3);
    assert_eq!(s.king_count(0, 3, true), 3);
    assert_eq!(s.king_count(0, 3, false), 0);
    assert_eq!((s.ducks[64], s.ducks[20], s.ducks[43]), (1, 1, 1));
    assert_eq!(s.material[32], 3);
    assert_eq!(s.phases[24], 3);
    // White's pawns, Black's pawns, Black's kings.
    assert_eq!(s.pieces[8], 3);
    assert_eq!(s.pieces[6 * 33 + 8], 3);
    assert_eq!(s.pieces[11 * 33 + 1], 3);
}

#[test]
fn distributions_count_every_position() {
    let mut s = Stats::new(false);
    for _ in 0..3 {
        assert_eq!(s.game(&opening()), Ok(()));
    }
    assert_eq!(s.unique_count(), Some(3));
    let total: u64 = s.outcomes.iter().sum();
    assert_eq!(total, s.games);
    for v in [&s.kings, &s.ducks, &s.scores, &s.material, &s.phases] {
        assert_eq!(v.iter().sum::<u64>(), s.positions);
    }
    for block in s.pieces.chunks_exact(33) {
        assert_eq!(block.iter().sum::<u64>(), s.positions);
    }
}

#[test]
fn black_begins() {
    let fen = "4k3/8/8/8/8/8/8/4K2Q b - - 0 1";
    let step = mv("e8", "e7", "a1", MoveFlag::Normal);
    let mut s = Stats::new(false);
    assert_eq!(s.game(&stored(fen, GameOutcome::Draw, &[(step, 70)])), Ok(()));
    assert_eq!(s.exits, -70);
    assert_eq!(s.kings[4], 1);
    assert_eq!(s.material[3], 1);
    assert_eq!(s.phases[4], 1);
}

#[test]
fn positions_one_by_one() {
    let mut s = Stats::new(false);
    let b = Board::from_fen("4k3/8/8/8/8/8/8/2B1K1NR w - - 0 1").unwrap();
    s.position(&b, i16::MIN);
    s.position(&b, i16::MAX);
    assert_eq!((s.scores[0], s.scores[65535]), (1, 1));
    assert_eq!(s.phases[4], 2);
    assert_eq!(s.unique_count(), Some(1));
    assert_eq!(b.count(Some(Color::White), Some(Piece::Bishop)), 1);
}

#[test]
fn registers_estimate() {
    let a = Board::startpos();
    let b = Board::from_fen("4k3/8/8/8/8/8/8/4K3 w - - 0 1").unwrap();
    let mut s = Stats::new(true);
    s.position(&a, 0);
    assert_eq!(s.empty_registers(), (1 << 20) - 1);
    let hash = a.hash();
    let rank = ((hash << 20) | (1 << 19)).leading_zeros() as u8 + 1;
    assert_eq!(s.registers[(hash >> 44) as usize], rank);
    s.position(&b, 0);
    let mut t = Stats::new(true);
    t.position(&b, 0);
    t.position(&a, 0);
    t.position(&a, 0);
    assert!(s.registers == t.registers);
}

#[test]
fn games_that_cannot_be_counted() {
    let good = mv("e2", "e4", "e3", MoveFlag::DoublePush);
    let taken = "4k3/8/8/8/8/8/8/K3R3 w - - 0 1";
    let capture = mv("e1", "e8", "e1", MoveFlag::Capture);
    let mut twice = stored(START, GameOutcome::Draw, &[(good, 0)]);
    twice.splice(32..32, GAME_TERMINATOR);
    let mut wrong = stored(START, GameOutcome::Draw, &[(good, 0)]);
    wrong[34] = 0xff;
    let cases = [
        (twice, "ply 1: unexpected game terminator"),
        (wrong, "ply 1: invalid Wakformat v1 move: 0xff470c"),
        (
            stored(START, GameOutcome::Draw, &[(good, 0), (good, 0)]),
            "ply 2: invalid move during analysis",
        ),
        (
            stored(
                "4k3/8/8/8/8/8/8/4K3 w - - 100 1",
                GameOutcome::Draw,
                &[(mv("e1", "e2", "a1", MoveFlag::Normal), 0)],
            ),
            "ply 1: invalid move during analysis",
        ),
        (
            stored(taken, GameOutcome::Draw, &[(capture, 0)]),
            "ply 1: king capture must end the game with the matching result",
        ),
        (
            stored(taken, GameOutcome::WhiteWin, &[(capture, 0), (good, 0)]),
            "ply 1: king capture must end the game with the matching result",
        ),
        (
            stored(
                "4k3/8/8/8/8/8/8/4K3 b - - 0 65535",
                GameOutcome::Draw,
                &[(mv("e8", "e7", "a1", MoveFlag::Normal), 0), (good, 0)],
            ),
            "ply 1: invalid move during replay",
        ),
    ];
    for (g, message) in cases {
        let mut s = Stats::new(false);
        assert_eq!(s.game(&g), Err(bad(message)));
        assert_eq!(s.games, 1);
    }
    let mut broken = stored(START, GameOutcome::Draw, &[]);
    broken[31] = 200;
    let mut s = Stats::new(false);
    assert_eq!(s.game(&broken), Err(bad("invalid Wakformat game header")));
    assert_eq!(s.games, 0);
}
