use wakformat::board::{Board, CastlingRights};
use wakformat::common::{Color, File, Man, Move, MoveFlag, Piece, Square};

fn sq(name: &str) -> Square {
    let b = name.as_bytes();
    Square::index((b[1] - b'1') as usize * 8 + (b[0] - b'a') as usize)
}

fn mv(src: &str, dest: &str, duck: &str, flag: MoveFlag) -> Move {
    Move { src: sq(src), dest: sq(dest), duck: sq(duck), flag }
}

fn fen(text: &str) -> Board {
    Board::from_fen(text).unwrap()
}

const START: &str = "rnbqkbnr/pppppppp/8/8/8/8/PPPPPPPP/RNBQKBNR w KQkq - 0 1";

#[test]
fn start_position_in_fen() {
    assert_eq!(fen(START), Board::startpos());
    assert_eq!(fen("rnbqkbnr/pppppppp/8/8/8/8/PPPPPPPP/RNBQKBNR w HAha - 0 1"), Board::startpos());
}

#[test]
fn fen_with_duck_and_counters() {
    let b = fen("4k3/8/8/3*4/8/8/8/4K2R b - - 17 300");
    assert_eq!(b.duck, Some(sq("d5")));
    assert_eq!(b.stm, Color::Black);
    assert_eq!((b.hmc, b.fmc), (17, 300));
    assert_eq!(b.man_on(sq("h1")), Some(Man { color: Color::White, piece: Piece::Rook }));
    assert_eq!(b.piece_on(sq("e8")), Some(Piece::King));
    assert_eq!(b.color_on(sq("e8")), Some(Color::Black));
    assert_eq!(b.man_on(sq("d5")), None);
    assert_eq!(b.try_king(Color::White), Some(sq("e1")));
    assert_eq!(b.count(None, None), 3);
    assert_eq!(b.count(Some(Color::White), Some(Piece::Rook)), 1);
}

#[test]
fn fen_with_en_passant() {
    let b = fen("4k3/8/8/3pP3/8/8/8/4K3 w - d6 0 2");
    assert_eq!(b.en_passant, Some(File::D));
    assert!(Board::from_fen("4k3/8/8/3pP3/8/8/8/4K3 w - d3 0 2").is_none());
}

#[test]
fn fen_castling_rights() {
    let b = fen("1r2k2r/8/8/8/8/8/8/R3K2R w KQkb - 0 1");
    assert_eq!(
        b.castling_rights(Color::White),
        CastlingRights { short: Some(File::H), long: Some(File::A) }
    );
    assert_eq!(
        b.castling_rights(Color::Black),
        CastlingRights { short: Some(File::H), long: Some(File::B) }
    );
    // Two rights on one side.
    assert!(Board::from_fen("4k3/8/8/8/8/8/8/R3K2R w AB - 0 1").is_none());
    // The king is not at home.
    assert!(Board::from_fen("4k3/8/8/8/8/8/4K3/R6R w K - 0 1").is_none());
}

#[test]
fn fens_that_are_none() {
    for text in [
        "",
        "8/8/8/8/8/8/8/8 w - - 0",
        "8/8/8/8/8/8/8 w - - 0 1",
        "9/8/8/8/8/8/8/8 w - - 0 1",
        "7/8/8/8/8/8/8/8 w - - 0 1",
        "x7/8/8/8/8/8/8/8 w - - 0 1",
        "**6/8/8/8/8/8/8/8 w - - 0 1",
        "8/8/8/8/8/8/8/8 x - - 0 1",
        "8/8/8/8/8/8/8/8 w z - 0 1",
        "8/8/8/8/8/8/8/8 w - j9 0 1",
        "8/8/8/8/8/8/8/8 w - - 256 1",
        "8/8/8/8/8/8/8/8 w - - 0 65536",
        "8/8/8/8/8/8/8/8 w - - a 1",
    ] {
        assert!(Board::from_fen(text).is_none(), "{text}");
    }
    assert!(Board::from_fen(" 8/8/8/8/8/8/8/8\tw  - - 255 65535 ").is_some());
}

#[test]
fn first_moves() {
    let b = Board::startpos();
    assert!(b.is_legal(mv("e2", "e4", "e3", MoveFlag::DoublePush)));
    assert!(b.is_legal(mv("e2", "e3", "e4", MoveFlag::Normal)));
    assert!(b.is_legal(mv("g1", "f3", "g1", MoveFlag::Normal)));
    // The flag must fit.
    assert!(!b.is_legal(mv("e2", "e4", "e3", MoveFlag::Normal)));
    // The duck needs an empty square.
    assert!(!b.is_legal(mv("e2", "e4", "e4", MoveFlag::DoublePush)));
    assert!(!b.is_legal(mv("e2", "e4", "d2", MoveFlag::DoublePush)));
    // Nothing jumps but knights.
    assert!(!b.is_legal(mv("f1", "c4", "e3", MoveFlag::Normal)));
    // Black is not to move.
    assert!(!b.is_legal(mv("e7", "e5", "e3", MoveFlag::DoublePush)));
}

#[test]
fn duck_stands_in_the_way() {
    let b = fen("4k3/8/8/8/8/4*3/4P3/R3K3 w - - 0 1");
    assert!(!b.is_legal(mv("e2", "e3", "a8", MoveFlag::Normal)));
    assert!(!b.is_legal(mv("e2", "e4", "a8", MoveFlag::DoublePush)));
    // The duck must move.
    assert!(!b.is_legal(mv("a1", "a2", "e3", MoveFlag::Normal)));
    assert!(b.is_legal(mv("a1", "a2", "e4", MoveFlag::Normal)));
}

#[test]
fn making_a_move() {
    let mut b = Board::startpos();
    b.make_move(mv("e2", "e4", "e3", MoveFlag::DoublePush));
    assert_eq!(b, fen("rnbqkbnr/pppppppp/8/8/4P3/4*3/PPPP1PPP/RNBQKBNR b KQkq e3 0 1"));
    b.make_move(mv("g8", "f6", "a3", MoveFlag::Normal));
    assert_eq!(b, fen("rnbqkb1r/pppppppp/5n2/8/4P3/*7/PPPP1PPP/RNBQKBNR w KQkq - 1 2"));
}

#[test]
fn castling() {
    let b = fen("r3k2r/8/8/8/8/8/8/R3K2R w KQkq - 3 9");
    let short = mv("e1", "h1", "e1", MoveFlag::ShortCastling);
    let long = mv("e1", "a1", "a1", MoveFlag::LongCastling);
    assert!(b.is_legal(short) && b.is_legal(long));
    let mut s = b;
    s.make_move(short);
    assert_eq!(s, fen("r3k2r/8/8/8/8/8/8/R4RK1 b kq - 4 9").with_duck("e1"));
    let mut l = b;
    l.make_move(long);
    assert_eq!(l, fen("r3k2r/8/8/8/8/8/8/2KR3R b kq - 4 9").with_duck("a1"));
    // Something is in between.
    let blocked = fen("r3k2r/8/8/8/8/8/8/RN2K2R w KQkq - 3 9");
    assert!(!blocked.is_legal(long));
}

trait WithDuck {
    fn with_duck(self, name: &str) -> Self;
}

impl WithDuck for Board {
    fn with_duck(mut self, name: &str) -> Self {
        self.duck = Some(sq(name));
        self
    }
}

#[test]
fn taking_in_passing() {
    let mut b = fen("4k3/8/8/3pP3/8/8/8/4K3 w - d6 5 2");
    let m = mv("e5", "d6", "d5", MoveFlag::EnPassant);
    assert!(b.is_legal(m));
    b.make_move(m);
    assert_eq!(b, fen("4k3/8/3P4/3*4/8/8/8/4K3 b - - 0 2"));
}

#[test]
fn promoting_and_taking_the_king() {
    let mut b = fen("4k3/3P4/8/8/8/8/8/4K3 w - - 0 40");
    let m = mv("d7", "e8", "d8", MoveFlag::CapturePromotionRook);
    assert!(b.is_legal(m));
    assert!(b.is_king_capture(m));
    assert!(!b.is_legal(mv("d7", "d8", "a1", MoveFlag::Normal)));
    assert!(b.is_legal(mv("d7", "d8", "a1", MoveFlag::PromotionKnight)));
    b.make_move(m);
    assert_eq!(b.try_king(Color::Black), None);
    assert_eq!(b.piece_on(sq("e8")), Some(Piece::Rook));
}

#[test]
fn rook_moves_lose_rights() {
    let mut b = fen("r3k2r/8/8/8/8/8/8/R3K2R w KQkq - 0 1");
    b.make_move(mv("a1", "a8", "b8", MoveFlag::Capture));
    assert_eq!(b.castling_rights(Color::White), CastlingRights { short: Some(File::H), long: None });
    assert_eq!(b.castling_rights(Color::Black), CastlingRights { short: Some(File::H), long: None });
}

#[test]
fn no_move_makes_men() {
    let b = fen("r3k2r/8/8/3pP3/8/8/8/R3K2R w KQkq d6 0 1");
    let moves = [
        (mv("e1", "h1", "e1", MoveFlag::ShortCastling), 8),
        (mv("e5", "d6", "d5", MoveFlag::EnPassant), 7),
        (mv("a1", "a8", "b8", MoveFlag::Capture), 7),
        (mv("e1", "e2", "e1", MoveFlag::Normal), 8),
    ];
    assert_eq!(b.count(None, None), 8);
    for (m, men) in moves {
        let mut c = b;
        assert!(b.is_legal(m));
        assert!(m.src != m.dest);
        c.make_move(m);
        assert_eq!(c.count(None, None), men);
        for color in [Color::White, Color::Black] {
            assert_eq!(c.count(Some(color), Some(Piece::King)), 1);
        }
    }
}

#[test]
fn hashes_tell_positions_apart() {
    let a = Board::startpos();
    let mut b = a;
    b.hmc = 7;
    b.fmc = 90;
    assert_eq!(a.hash(), b.hash());
    let mut c = a;
    c.make_move(mv("e2", "e4", "e3", MoveFlag::DoublePush));
    assert_ne!(a.hash(), c.hash());
    let mut d = a;
    d.duck = Some(sq("e4"));
    assert_ne!(a.hash(), d.hash());
    let mut e = a;
    e.stm = Color::Black;
    assert_ne!(a.hash(), e.hash());
}
