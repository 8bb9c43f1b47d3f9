use wakformat::board::Board;
use wakformat::common::{Color, Move, MoveFlag, Square};
use wakformat::error::{Error, ErrorKind};
use wakformat::format::{
    pack_header, read_game, replay_move, unpack_header, validate_game_header, GameHeaderBytes,
    GameOutcome, MoveRecord, GAME_TERMINATOR,
};
use wakformat::games::{Progress, MAX_GAME_SIZE};

const START: &str = "rnbqkbnr/pppppppp/8/8/8/8/PPPPPPPP/RNBQKBNR w KQkq - 0 1";

fn sq(name: &str) -> Square {
    let b = name.as_bytes();
    Square::index((b[1] - b'1') as usize * 8 + (b[0] - b'a') as usize)
}

fn mv(src: &str, dest: &str, duck: &str, flag: MoveFlag) -> Move {
    Move { src: sq(src), dest: sq(dest), duck: sq(duck), flag }
}

fn bad(message: &str) -> Error {
    Error { kind: ErrorKind::InvalidData, message: message.to_owned() }
}

fn eof(message: &str) -> Error {
    Error { kind: ErrorKind::UnexpectedEof, message: message.to_owned() }
}

fn start_header() -> GameHeaderBytes {
    pack_header(&Board::startpos(), GameOutcome::WhiteWin).unwrap()
}

fn sample_game() -> Vec<u8> {
    let mut g = start_header().to_vec();
    for m in [
        mv("e2", "e4", "e3", MoveFlag::DoublePush),
        mv("e7", "e5", "e6", MoveFlag::DoublePush),
        mv("g1", "f3", "a6", MoveFlag::Normal),
    ] {
        g.extend_from_slice(&MoveRecord { mv: m, white_score: 31 }.to_bytes());
    }
    g.extend_from_slice(&GAME_TERMINATOR);
    g
}

#[test]
fn header_of_the_start_position() {
    let h = start_header();
    assert_eq!(&h[..8], &[0xff, 0xff, 0, 0, 0, 0, 0xff, 0xff]);
    // Castling rook, knight, bishop, queen, king, bishop, knight, castling rook; then pawns.
    assert_eq!(&h[8..16], &[0x16, 0x42, 0x25, 0x61, 0, 0, 0, 0]);
    assert_eq!(&h[16..24], &[0x88, 0x88, 0x88, 0x88, 0x9e, 0xca, 0xad, 0xe9]);
    assert_eq!(&h[24..], &[64, 0, 1, 0, 0, 0, 2, 64]);
}

#[test]
fn header_of_a_position_with_everything() {
    let b = Board::from_fen("4k3/8/8/3pP3/8/6*1/8/R3K3 b Q - 3 260").unwrap();
    let h = pack_header(&b, GameOutcome::Draw).unwrap();
    assert_eq!(h[24], 128 + 64);
    assert_eq!(h[25], 3);
    assert_eq!((h[26], h[27]), (4, 1));
    assert_eq!(h[30], 1);
    assert_eq!(h[31], 22);
    let b = Board::from_fen("4k3/8/8/3pP3/8/8/8/4K3 w - d6 0 2").unwrap();
    assert_eq!(pack_header(&b, GameOutcome::Draw).unwrap()[24], 43);
}

#[test]
fn headers_are_read_back() {
    for fen in [
        START,
        "4k3/8/8/3pP3/8/6*1/8/R3K3 b Q - 3 260",
        "4k3/8/8/3pP3/8/8/8/4K3 w - d6 99 65535",
        "r3k2r/8/8/8/8/8/8/1R2K1R1 b GBha - 0 1",
    ] {
        let b = Board::from_fen(fen).unwrap();
        for outcome in [GameOutcome::BlackWin, GameOutcome::Draw, GameOutcome::WhiteWin] {
            let h = pack_header(&b, outcome).unwrap();
            assert_eq!(validate_game_header(&h), Ok(()));
            let back = unpack_header(&h).unwrap();
            assert_eq!(back, b);
            assert_eq!(pack_header(&back, outcome), Ok(h));
        }
    }
}

#[test]
fn positions_that_have_no_header() {
    let crowd = "rnbqkbnr/pppppppp/pppppppp/8/8/8/PPPPPPPP/RNBQKBNR w - - 0 1";
    assert_eq!(
        pack_header(&Board::from_fen(crowd).unwrap(), GameOutcome::Draw),
        Err(bad("more than 32 chess pieces"))
    );
    for (fen, message) in [
        ("8/8/8/8/8/8/8/8 w - - 0 1", "invalid Wakformat game header"),
        ("4k3/8/8/8/8/8/8/4K3 w - - 0 0", "invalid Wakformat game header"),
        ("8/8/8/8/8/8/8/4K3 w - - 0 1", "initial position must contain both kings"),
        ("4kk2/8/8/8/8/8/8/4K3 w - - 0 1", "initial position must contain both kings"),
    ] {
        let b = Board::from_fen(fen).unwrap();
        assert_eq!(pack_header(&b, GameOutcome::Draw), Err(bad(message)), "{fen}");
    }
    let mut b = Board::startpos();
    b.duck = Some(sq("a1"));
    assert_eq!(pack_header(&b, GameOutcome::Draw), Err(bad("duck overlaps a chess piece")));
}

#[test]
fn headers_that_are_broken() {
    let good = start_header();
    let cases: [(usize, u8, &str); 9] = [
        (31, 65, "invalid Wakformat game header"),
        (24, 65, "invalid Wakformat game header"),
        (30, 3, "invalid Wakformat game header"),
        (26, 0, "invalid Wakformat game header"),
        (28, 1, "invalid Wakformat game header"),
        (29, 1, "invalid Wakformat game header"),
        (31, 0, "duck overlaps a chess piece"),
        (8, 0x17, "invalid packed piece"),
        (10, 0x20, "initial position must contain both kings"),
    ];
    for (i, value, message) in cases {
        let mut h = good;
        h[i] = value;
        assert_eq!(validate_game_header(&h), Err(bad(message)), "{i} {value}");
        assert_eq!(unpack_header(&h), Err(bad(message)));
    }
    // A code without a man.
    let b = Board::from_fen("4k3/8/8/8/8/8/8/4K3 w - - 0 1").unwrap();
    let mut h = pack_header(&b, GameOutcome::Draw).unwrap();
    h[20] = 1;
    assert_eq!(validate_game_header(&h), Err(bad("invalid packed piece")));
}

#[test]
fn headers_that_hold_no_position() {
    // A pawn on the first rank.
    let b = Board::from_fen("4k3/8/8/8/8/8/8/4K2N w - - 0 1").unwrap();
    let mut h = pack_header(&b, GameOutcome::Draw).unwrap();
    h[8] = 0x05;
    assert_eq!(validate_game_header(&h), Ok(()));
    assert_eq!(unpack_header(&h), Err(bad("pawn on back rank")));
    // A castling rook on the second rank.
    let b = Board::from_fen("4k3/8/8/8/8/8/7R/4K3 w - - 0 1").unwrap();
    let mut h = pack_header(&b, GameOutcome::Draw).unwrap();
    assert_eq!(h[8], 0x35);
    h[8] = 0x65;
    assert_eq!(unpack_header(&h), Err(bad("castling rook off back rank")));
    // Two castling rooks on one side.
    let b = Board::from_fen("4k3/8/8/8/8/8/8/4K1RR w - - 0 1").unwrap();
    let mut h = pack_header(&b, GameOutcome::Draw).unwrap();
    h[8] = 0x65;
    h[9] = 0xd6;
    assert_eq!(unpack_header(&h), Err(bad("invalid packed board")));
    // No pawn to take in passing.
    let b = Board::from_fen("4k3/8/8/8/8/8/8/4K3 w - d6 0 1").unwrap();
    let h = pack_header(&b, GameOutcome::Draw).unwrap();
    assert_eq!(unpack_header(&h), Err(bad("en passant has no opposing pawn")));
}

#[test]
fn game_in_one_piece() {
    let g = sample_game();
    let mut input = g.clone();
    input.extend_from_slice(&[9, 9, 9]);
    let mut bytes = Vec::new();
    assert_eq!(read_game(&input, &mut bytes), Ok(Progress::More(32)));
    assert_eq!(read_game(&input[32..], &mut bytes), Ok(Progress::Complete(20)));
    assert_eq!(bytes, g);
}

#[test]
fn game_in_any_pieces() {
    let g = sample_game();
    let mut input = g.clone();
    input.extend_from_slice(&g);
    for size in 1..60 {
        let mut bytes = Vec::new();
        let mut pos = 0;
        loop {
            let end = (pos + size).min(input.len());
            match read_game(&input[pos..end], &mut bytes) {
                Ok(Progress::More(n)) => {
                    assert!(n > 0);
                    pos += n;
                    assert_eq!(&bytes[..], &g[..pos]);
                }
                Ok(Progress::Complete(n)) => {
                    pos += n;
                    break;
                }
                other => panic!("{other:?}"),
            }
        }
        assert_eq!(bytes, g);
        assert_eq!(pos, g.len());
    }
}

#[test]
fn end_of_the_input() {
    assert_eq!(read_game(&[], &mut Vec::new()), Ok(Progress::End));
    let g = sample_game();
    let mut part = g[..10].to_vec();
    assert_eq!(read_game(&[], &mut part), Err(eof("failed to fill whole buffer")));
    assert_eq!((&part[..10], &part[10..]), (&g[..10], &[0; 22][..]));
    let mut part = g[..39].to_vec();
    assert_eq!(read_game(&[], &mut part), Err(eof("failed to fill whole buffer")));
    assert_eq!(part, &g[..37]);
    let mut part = g[..42].to_vec();
    assert_eq!(read_game(&[], &mut part), Err(eof("unterminated Wakformat game")));
    assert_eq!(part, &g[..42]);
}

#[test]
fn game_with_a_broken_header() {
    let mut g = sample_game();
    g[30] = 9;
    let mut bytes = Vec::new();
    assert_eq!(read_game(&g, &mut bytes), Err(bad("invalid Wakformat game header")));
    assert_eq!(bytes, &g[..32]);
}

#[test]
fn game_that_is_too_long() {
    let mut bytes = start_header().to_vec();
    bytes.resize(MAX_GAME_SIZE - (MAX_GAME_SIZE - 32) % 5, 1);
    let len = bytes.len();
    assert_eq!(read_game(&[1, 1, 1, 1, 1], &mut bytes), Err(bad("Wakformat game exceeds 16 MiB")));
    assert_eq!(bytes.len(), len + 5);
    bytes.truncate(len);
    assert_eq!(
        read_game(&[1, 1, 1, 1, 1, 0, 0, 0, 0, 0], &mut bytes),
        Ok(Progress::Complete(10))
    );
}

#[test]
fn replaying_moves() {
    let mut b = Board::startpos();
    assert_eq!(replay_move(&mut b, mv("e2", "e4", "e3", MoveFlag::DoublePush)), Ok(()));
    assert_eq!(
        b,
        Board::from_fen("rnbqkbnr/pppppppp/8/8/4P3/4*3/PPPP1PPP/RNBQKBNR b KQkq e3 0 1").unwrap()
    );
    let before = b;
    assert_eq!(
        replay_move(&mut b, mv("e4", "e5", "a3", MoveFlag::Normal)),
        Err(bad("invalid move during replay"))
    );
    assert_eq!(
        replay_move(&mut b, mv("e2", "e4", "a3", MoveFlag::Normal)),
        Err(bad("empty move source"))
    );
    assert_eq!(b, before);
}

#[test]
fn positions_in_which_nothing_is_replayed() {
    let step = mv("e1", "e2", "a3", MoveFlag::Normal);
    let play = |fen: &str| replay_move(&mut Board::from_fen(fen).unwrap(), step);
    assert_eq!(play("4k3/8/8/8/8/8/8/4K3 w - - 99 1"), Ok(()));
    for fen in [
        "4k3/8/8/8/8/8/8/4K3 w - - 100 1",
        "8/8/8/8/8/8/8/4K3 w - - 0 1",
        "4k3/8/8/8/8/8/8/4R3 w - - 0 1",
        "4K3/8/8/8/8/8/8/4k3 b - - 0 65535",
    ] {
        assert_eq!(play(fen), Err(bad("invalid move during replay")), "{fen}");
    }
    assert_eq!(play("4K3/8/8/8/8/8/8/4k3 b - - 0 65534"), Ok(()));
}

#[test]
fn positions_stay_storable() {
    let mut b = Board::startpos();
    for m in [
        mv("e2", "e4", "e3", MoveFlag::DoublePush),
        mv("d7", "d5", "d6", MoveFlag::DoublePush),
        mv("e4", "d5", "e4", MoveFlag::Capture),
        mv("g8", "f6", "a3", MoveFlag::Normal),
        mv("f1", "b5", "h4", MoveFlag::Normal),
        mv("c8", "d7", "h5", MoveFlag::Normal),
        mv("g1", "f3", "h4", MoveFlag::Normal),
        mv("d7", "b5", "h3", MoveFlag::Capture),
        mv("e1", "h1", "a4", MoveFlag::ShortCastling),
    ] {
        assert_eq!(replay_move(&mut b, m), Ok(()), "{m:?}");
        let h = pack_header(&b, GameOutcome::Draw).unwrap();
        assert_eq!(unpack_header(&h), Ok(b));
    }
    assert_eq!(b.stm, Color::Black);
}

#[test]
fn game_is_over() {
    let next = mv("a1", "a2", "h8", MoveFlag::Normal);
    // The king is taken.
    let mut b = Board::from_fen("4k3/8/8/8/8/8/8/K3R3 w - - 0 1").unwrap();
    assert_eq!(replay_move(&mut b, mv("e1", "e8", "e1", MoveFlag::Capture)), Ok(()));
    let over = b;
    assert!(replay_move(&mut b, next).is_err());
    assert_eq!(
        replay_move(&mut b, mv("e8", "e7", "a2", MoveFlag::Normal)),
        Err(bad("invalid move during replay"))
    );
    assert_eq!(b, over);
    // A hundred turns without a pawn move or a capture.
    let mut b = Board::from_fen("4k3/8/8/8/8/8/8/K3R3 w - - 99 1").unwrap();
    assert_eq!(replay_move(&mut b, mv("e1", "e2", "e1", MoveFlag::Normal)), Ok(()));
    let over = b;
    assert_eq!(
        replay_move(&mut b, mv("e8", "e7", "a2", MoveFlag::Normal)),
        Err(bad("invalid move during replay"))
    );
    assert_eq!(b, over);
    // With a second king the game goes on.
    let mut b = Board::from_fen("k3k3/8/8/8/8/8/8/K3R3 w - - 0 1").unwrap();
    assert_eq!(replay_move(&mut b, mv("e1", "e8", "e1", MoveFlag::Capture)), Ok(()));
    assert_eq!(replay_move(&mut b, mv("a8", "a7", "h8", MoveFlag::Normal)), Ok(()));
}
