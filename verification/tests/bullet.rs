use bulletformat::ChessBoard;
use wakformat::board::Board;
use wakformat::bullet::{splat_to_bulletformat, to_bulletformat, Walk, DUCK_EXTRA_INDEX};
use wakformat::common::{Move, MoveFlag, Square};
use wakformat::error::{Error, ErrorKind};
use wakformat::format::{pack_header, GameOutcome, MoveRecord, GAME_TERMINATOR};

fn sq(name: &str) -> Square {
    let b = name.as_bytes();
    Square::index((b[1] - b'1') as usize * 8 + (b[0] - b'a') as usize)
}

fn mv(src: &str, dest: &str, duck: &str, flag: MoveFlag) -> Move {
    Move { src: sq(src), dest: sq(dest), duck: sq(duck), flag }
}

fn bad(message: &str) -> Error {
    Error { kind: ErrorKind::InvalidData, message: message.to_owned() }
}

fn fen(text: &str) -> Board {
    Board::from_fen(text).unwrap()
}

fn sample() -> Vec<u8> {
    let mut g = pack_header(&Board::startpos(), GameOutcome::WhiteWin).unwrap().to_vec();
    for (m, white_score) in [
        (mv("e2", "e4", "e3", MoveFlag::DoublePush), 30),
        (mv("d7", "d5", "d6", MoveFlag::DoublePush), -20),
        (mv("e4", "d5", "e4", MoveFlag::Capture), 5),
    ] {
        g.extend_from_slice(&MoveRecord { mv: m, white_score }.to_bytes());
    }
    g.extend_from_slice(&GAME_TERMINATOR);
    g
}

#[test]
fn start_position_is_shown() {
    let b = to_bulletformat(&Board::startpos(), 10, GameOutcome::WhiteWin).unwrap();
    assert_eq!(
        b,
        ChessBoard {
            occ: 0xffff_0000_0000_ffff,
            pcs: [
                0x13, 0x42, 0x25, 0x31, 0, 0, 0, 0, 0x88, 0x88, 0x88, 0x88, 0x9b, 0xca, 0xad, 0xb9,
            ],
            score: 10,
            result: 2,
            ksq: 4,
            opp_ksq: 4,
            extra: [64, 0, 0],
        }
    );
    assert_eq!(b.into_iter().count(), 32);
    assert_eq!(b.into_iter().next(), Some((3, 0)));
}

#[test]
fn black_sees_the_board_upside_down() {
    let board = fen("4k3/8/8/8/8/1*6/3P4/4K3 b - - 0 1");
    let b = to_bulletformat(&board, 25, GameOutcome::WhiteWin).unwrap();
    assert_eq!(b.occ, 1 << 4 | 1 << 51 | 1 << 60);
    assert_eq!(&b.pcs[..2], &[0x85, 0x0d]);
    assert_eq!((b.score, b.result), (-25, 0));
    assert_eq!((b.ksq, b.opp_ksq), (4, 4));
    assert_eq!(b.extra[DUCK_EXTRA_INDEX], 41);
}

#[test]
fn exchanging_the_sides_changes_nothing() {
    let white = fen("r3k3/8/2n5/8/5*2/8/3P4/4K2B w - - 0 1");
    let black = fen("4k2b/3p4/8/5*2/8/2N5/8/R3K3 b - - 0 1");
    assert_eq!(
        to_bulletformat(&white, 77, GameOutcome::WhiteWin),
        to_bulletformat(&black, -77, GameOutcome::BlackWin)
    );
}

#[test]
fn lowest_score_has_no_negative() {
    let board = fen("4k3/8/8/8/8/8/8/4K3 b - - 0 1");
    assert_eq!(to_bulletformat(&board, i16::MIN, GameOutcome::Draw).unwrap().score, i16::MAX);
}

#[test]
fn positions_that_are_not_shown() {
    let message = "expected at most 32 chess pieces and both kings";
    for text in [
        "8/8/8/8/8/8/8/4K3 w - - 0 1",
        "4kk2/8/8/8/8/8/8/4K3 w - - 0 1",
        "rnbqkbnr/pppppppp/p7/8/8/8/PPPPPPPP/RNBQKBNR w - - 0 1",
    ] {
        assert_eq!(to_bulletformat(&fen(text), 0, GameOutcome::Draw), Err(bad(message)));
    }
}

#[test]
fn walking_through_a_game() {
    let g = sample();
    let mut walk = Walk::start(&g).unwrap();
    assert_eq!((walk.board, walk.outcome, walk.index), (Board::startpos(), GameOutcome::WhiteWin, 0));
    let record = walk.record(&g).unwrap().unwrap();
    assert_eq!(record.white_score, 30);
    assert_eq!(walk.step(record, false), Ok(None));
    let record = walk.record(&g).unwrap().unwrap();
    let before = walk.board;
    let shown = walk.step(record, true).unwrap().unwrap();
    assert_eq!(Ok(shown), to_bulletformat(&before, -20, GameOutcome::WhiteWin));
    assert_eq!(walk.index, 2);
    let record = walk.record(&g).unwrap().unwrap();
    assert_eq!(walk.step(record, false), Ok(None));
    assert_eq!(walk.record(&g), Ok(None));
}

#[test]
fn splatting_a_game() {
    let mut shown = Vec::new();
    let filter = |b: &Board, m: Move, score: i16, outcome: GameOutcome| {
        assert_eq!(outcome, GameOutcome::WhiteWin);
        assert!(b.is_legal(m));
        score != -20
    };
    assert_eq!(splat_to_bulletformat(&sample(), filter, &mut shown), Ok(()));
    assert_eq!(shown.len(), 2);
    assert_eq!((shown[0].score, shown[1].score), (30, 5));
    let after = fen("rnbqkbnr/ppp1pppp/3*4/3p4/4P3/8/PPPP1PPP/RNBQKBNR w KQkq d6 0 2");
    assert_eq!(Ok(shown[1]), to_bulletformat(&after, 5, GameOutcome::WhiteWin));
}

#[test]
fn splatting_stops_at_a_fault() {
    let mut g = sample();
    let first = g[32..37].to_vec();
    g[42..47].copy_from_slice(&first);
    let mut shown = Vec::new();
    let all = |_: &Board, _: Move, _: i16, _: GameOutcome| true;
    assert_eq!(splat_to_bulletformat(&g, all, &mut shown), Err(bad("empty move source")));
    assert_eq!(shown.len(), 2);
    let mut g = sample();
    g[42..47].copy_from_slice(&GAME_TERMINATOR);
    assert_eq!(
        splat_to_bulletformat(&g, all, &mut shown),
        Err(bad("unexpected Wakformat game terminator"))
    );
    assert_eq!(shown.len(), 4);
    let mut g = sample();
    g[44] = 0xff;
    let raw = u32::from_le_bytes([g[42], g[43], g[44], 0]);
    let message = format!("invalid Wakformat v1 move: {raw:#08x}");
    assert_eq!(splat_to_bulletformat(&g, all, &mut shown), Err(bad(&message)));
}

#[test]
fn games_that_are_incomplete() {
    let g = sample();
    for part in [&g[..36], &g[..50], &g[..47], &g[..0]] {
        assert_eq!(Walk::start(part).err(), Some(bad("incomplete Wakformat game")));
    }
    let mut broken = g.clone();
    broken[30] = 3;
    assert_eq!(Walk::start(&broken).err(), Some(bad("invalid Wakformat game header")));
}

#[test]
fn filter_is_not_asked_behind_a_fault() {
    let mut g = sample();
    let first = g[32..37].to_vec();
    g[37..42].copy_from_slice(&first);
    let asked = std::cell::Cell::new(0);
    let filter = |_: &Board, _: Move, _: i16, _: GameOutcome| {
        asked.set(asked.get() + 1);
        true
    };
    let mut shown = Vec::new();
    assert_eq!(splat_to_bulletformat(&g, filter, &mut shown), Err(bad("empty move source")));
    assert_eq!((asked.get(), shown.len()), (2, 1));
}
