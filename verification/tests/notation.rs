use wakformat::board::Board;
use wakformat::common::{CastlingDirection, File, Move, MoveFlag, Piece, Rank, Square};
use wakformat::error::{Error, ErrorKind};
use wakformat::initial::initial_board;
use wakformat::notation::{parse_move, read_notation, Shape};

fn sq(name: &str) -> Square {
    let b = name.as_bytes();
    Square::index((b[1] - b'1') as usize * 8 + (b[0] - b'a') as usize)
}

fn mv(src: &str, dest: &str, duck: &str, flag: MoveFlag) -> Move {
    Move { src: sq(src), dest: sq(dest), duck: sq(duck), flag }
}

fn bad(message: &str) -> Error {
    Error { kind: ErrorKind::InvalidData, message: message.to_owned() }
}

fn fen(text: &str) -> Board {
    Board::from_fen(text).unwrap()
}

#[test]
fn what_notation_says() {
    let n = read_notation("Rad1xx+@e4!?");
    assert_eq!(n, Err(bad("invalid SAN destination")));
    let n = read_notation("Raxd1+@e4!?").unwrap();
    assert_eq!(n.text, "Raxd1+@e4");
    assert_eq!(n.duck, Some(sq("e4")));
    assert_eq!(
        n.shape,
        Shape::Piece {
            piece: Piece::Rook,
            dest: sq("d1"),
            capture: true,
            promotion: None,
            file: Some(File::A),
            rank: None,
        }
    );
    assert_eq!(
        read_notation("b8=n").unwrap().shape,
        Shape::Piece {
            piece: Piece::Pawn,
            dest: sq("b8"),
            capture: false,
            promotion: Some(Piece::Knight),
            file: None,
            rank: None,
        }
    );
    assert_eq!(
        read_notation("Q4e7").unwrap().shape,
        Shape::Piece {
            piece: Piece::Queen,
            dest: sq("e7"),
            capture: false,
            promotion: None,
            file: None,
            rank: Some(Rank::Fourth),
        }
    );
    assert_eq!(
        read_notation("e7d8=Q").unwrap().shape,
        Shape::Coordinates { src: sq("e7"), dest: sq("d8"), promotion: Some(Piece::Queen) }
    );
    for text in ["O-O", "0-0", "O-O#@a1"] {
        assert_eq!(
            read_notation(text).unwrap().shape,
            Shape::Castling(CastlingDirection::Short)
        );
    }
    for text in ["O-O-O", "0-0-0"] {
        assert_eq!(read_notation(text).unwrap().shape, Shape::Castling(CastlingDirection::Long));
    }
}

#[test]
fn notation_that_says_nothing() {
    for (text, message) in [
        ("\u{e9}4", "non-ASCII move"),
        ("e4@z9", "invalid duck square"),
        ("e4@", "invalid duck square"),
        ("e8=K", "invalid promotion"),
        ("e", "invalid SAN move"),
        ("", "invalid SAN move"),
        ("@e4", "invalid SAN move"),
        ("Nf9", "invalid SAN destination"),
        ("Nxxf3", "invalid SAN disambiguation"),
        ("Nzf3", "invalid SAN disambiguation"),
        ("Nabf3", "invalid SAN disambiguation"),
    ] {
        assert_eq!(read_notation(text), Err(bad(message)), "{text}");
        assert_eq!(parse_move(&Board::startpos(), text), Err(bad(message)), "{text}");
    }
}

#[test]
fn moves_from_the_start() {
    let b = Board::startpos();
    let push = mv("e2", "e4", "e3", MoveFlag::DoublePush);
    for text in ["e4@e3", "e2e4@e3", "e4@e3!?", "e4+@e3"] {
        assert_eq!(parse_move(&b, text), Ok(push), "{text}");
    }
    assert_eq!(parse_move(&b, "Nf3@g1"), Ok(mv("g1", "f3", "g1", MoveFlag::Normal)));
    for text in ["e5@e3", "e4", "e4@e4", "Nd2@e4", "exd3@e4", "O-O@e4", "e2e4=Q@e3"] {
        let message = format!("illegal move or missing duck placement: {text}");
        assert_eq!(parse_move(&b, text), Err(bad(&message)), "{text}");
    }
    assert_eq!(
        parse_move(&b, "e5@e3+!"),
        Err(bad("illegal move or missing duck placement: e5@e3"))
    );
}

#[test]
fn ambiguous_moves() {
    let b = fen("4k3/8/8/8/8/8/8/1N1K1N2 w - - 0 1");
    assert_eq!(parse_move(&b, "Nd2@a1"), Err(bad("ambiguous move Nd2@a1")));
    assert_eq!(parse_move(&b, "Nbd2@a1"), Ok(mv("b1", "d2", "a1", MoveFlag::Normal)));
    assert_eq!(parse_move(&b, "Nfd2@a1#"), Ok(mv("f1", "d2", "a1", MoveFlag::Normal)));
    let b = fen("R3k3/8/8/8/8/8/8/R2K4 w - - 0 1");
    assert_eq!(parse_move(&b, "R8a4@h1"), Ok(mv("a8", "a4", "h1", MoveFlag::Normal)));
    assert_eq!(parse_move(&b, "R1a4@h1"), Ok(mv("a1", "a4", "h1", MoveFlag::Normal)));
    assert_eq!(parse_move(&b, "Ra4@h1"), Err(bad("ambiguous move Ra4@h1")));
}

#[test]
fn special_moves() {
    let b = fen("r3k2r/1P6/8/3pP3/8/8/8/R3K2R w KQkq d6 0 1");
    assert_eq!(parse_move(&b, "O-O@e1"), Ok(mv("e1", "h1", "e1", MoveFlag::ShortCastling)));
    assert_eq!(parse_move(&b, "e1a1@a1"), Ok(mv("e1", "a1", "a1", MoveFlag::LongCastling)));
    assert_eq!(parse_move(&b, "exd6@d5"), Ok(mv("e5", "d6", "d5", MoveFlag::EnPassant)));
    assert_eq!(parse_move(&b, "bxa8=R@b7"), Ok(mv("b7", "a8", "b7", MoveFlag::CapturePromotionRook)));
    assert_eq!(parse_move(&b, "b7b8=q@b7"), Ok(mv("b7", "b8", "b7", MoveFlag::PromotionQueen)));
    assert_eq!(
        parse_move(&b, "b8@b7"),
        Err(bad("illegal move or missing duck placement: b8@b7"))
    );
}

#[test]
fn duck_may_stay_when_the_king_is_taken() {
    let b = fen("4k3/8/8/8/8/8/8/K3R3 w - - 0 1");
    assert_eq!(parse_move(&b, "Rxe8"), Ok(mv("e1", "e8", "e1", MoveFlag::Capture)));
    assert_eq!(parse_move(&b, "Rxe8@h1"), Ok(mv("e1", "e8", "h1", MoveFlag::Capture)));
    assert_eq!(
        parse_move(&b, "Re7"),
        Err(bad("illegal move or missing duck placement: Re7"))
    );
}

#[test]
fn first_positions() {
    assert_eq!(initial_board(None), Ok(Board::startpos()));
    let text = "r3k2r/8/8/3pP3/8/8/8/R3K2R w KQkq d6 3 7";
    assert_eq!(initial_board(Some(text)), Ok(fen(text)));
    let text = "4k3/8/8/3*4/8/8/8/4K3 b - - 0 1";
    assert_eq!(initial_board(Some(text)), Ok(fen(text)));
}

#[test]
fn first_positions_that_are_refused() {
    for (text, message) in [
        ("", "invalid initial PGN FEN"),
        ("4k3/8/8/8/8/8/8/4K3 w - - 0", "invalid initial PGN FEN"),
        ("4k3/8/8/8/8/8/4K3 w - - 0 1", "invalid initial PGN FEN"),
        ("4k3/8/8/8/8/8/8/8 w - - 0 1", "invalid initial PGN FEN"),
        ("4kk2/8/8/8/8/8/8/4K3 w - - 0 1", "invalid initial PGN FEN"),
        ("4k3/8/8/8/8/8/8/4K3 w - e9 0 1", "invalid initial PGN FEN"),
        ("4k3/8/8/8/8/8/8/4K3 x - - 0 1", "invalid initial PGN FEN"),
        ("4k3/8/8/**6/8/8/8/4K3 w - - 0 1", "invalid initial PGN FEN"),
        ("4k2p/8/8/8/8/8/8/4K3 w - - 0 1", "pawn on FEN back rank"),
        ("4k3/8/8/8/8/8/8/P3K3 w - - 0 1", "pawn on FEN back rank"),
        ("4k3/8/8/8/x7/8/8/4K3 w - - 0 1", "invalid FEN board character"),
        ("4k3/9/8/8/8/8/8/4K3 w - - 0 1", "invalid FEN board character"),
        ("4k3/71/8/7/8/8/8/4K3 w - - 0 1", "invalid FEN rank width"),
        ("4k3/88/8/8/8/8/8/4K3 w - - 0 1", "invalid FEN rank width"),
        ("4k3/8/8/8/8/8/8/4K3 w K - 0 1", "FEN castling right has no rook"),
        ("4k3/8/8/8/8/8/8/4K3 w - d6 0 1", "FEN en passant has no opposing pawn"),
    ] {
        assert_eq!(initial_board(Some(text)), Err(bad(message)), "{text}");
    }
}

/// A move written by its squares.
fn written(m: Move) -> String {
    let name = |s: Square| {
        let i = s.position();
        format!("{}{}", (b'a' + (i % 8) as u8) as char, i / 8 + 1)
    };
    let promotion = match m.flag.promotion() {
        Some(Piece::Queen) => "=Q",
        Some(Piece::Rook) => "=R",
        Some(Piece::Bishop) => "=B",
        Some(_) => "=N",
        None => "",
    };
    format!("{}{}{promotion}@{}", name(m.src), name(m.dest), name(m.duck))
}

#[test]
fn legal_moves_can_be_written_by_their_squares() {
    for text in [
        "rnbqkbnr/pppppppp/8/8/8/8/PPPPPPPP/RNBQKBNR w KQkq - 0 1",
        "r3k2r/1P6/8/3pP3/5*2/8/8/R3K2R w KQkq d6 0 1",
        "4k3/8/8/8/8/8/4p3/1r1K1Q2 b - - 0 1",
    ] {
        let b = fen(text);
        let mut count = 0;
        for src in 0..64 {
            for dest in 0..64 {
                for code in 0..16 {
                    for duck in [0, 16, 35, 63] {
                        let Some(flag) = MoveFlag::from_code(code) else { continue };
                        let m = Move {
                            src: Square::index(src),
                            dest: Square::index(dest),
                            duck: Square::index(duck),
                            flag,
                        };
                        if b.is_legal(m) {
                            count += 1;
                            assert_eq!(parse_move(&b, &written(m)), Ok(m));
                        }
                    }
                }
            }
        }
        assert!(count >= 20, "{text}");
    }
}
