use wakformat::common::{File, Move, MoveFlag, Rank, Square};
use wakformat::error::{Error, ErrorKind};
use wakformat::format::{
    decode_move, encode_move, header_offset, invalid, read_file_header, validate_file_header,
    FormatError, GameOutcome, MoveRecord, FILE_HEADER, FILE_HEADER_SIZE, GAME_HEADER_SIZE,
    GAME_TERMINATOR, MAGIC, MAX_PIECES, MOVE_BITS, MOVE_SIZE, NO_SQUARE, RECORD_SIZE, SCORE_SIZE,
    VERSION,
};

fn sq(i: usize) -> Square {
    Square::index(i)
}

fn sample_move() -> Move {
    Move { src: sq(12), dest: sq(28), duck: sq(20), flag: MoveFlag::DoublePush }
}

fn error(kind: ErrorKind, message: &str) -> Error {
    Error { kind, message: message.to_owned() }
}

#[test]
fn constants_describe_the_layout() {
    assert_eq!(VERSION, 1);
    assert_eq!(&MAGIC, b"WAKF");
    assert_eq!(FILE_HEADER, [b'W', b'A', b'K', b'F', 1, 0, 0, 0]);
    assert_eq!(FILE_HEADER_SIZE, FILE_HEADER.len());
    assert_eq!(RECORD_SIZE, MOVE_SIZE + SCORE_SIZE);
    assert_eq!(GAME_TERMINATOR, [0; RECORD_SIZE]);
    assert_eq!(MOVE_BITS, (1 << 22) - 1);
    assert_eq!((GAME_HEADER_SIZE, MAX_PIECES, NO_SQUARE), (32, 32, 64));
    assert_eq!(header_offset::OCCUPANCY, 0);
    assert_eq!(header_offset::PIECES, 8);
    assert_eq!(header_offset::SIDE_TO_MOVE_AND_EN_PASSANT, 24);
    assert_eq!(header_offset::HALFMOVE_CLOCK, 25);
    assert_eq!(header_offset::FULLMOVE_NUMBER, 26);
    assert_eq!(header_offset::RESERVED_SCORE, 28);
    assert_eq!(header_offset::OUTCOME, 30);
    assert_eq!(header_offset::DUCK, 31);
}

#[test]
fn file_header_is_accepted() {
    assert_eq!(validate_file_header(FILE_HEADER), Ok(()));
    assert_eq!(read_file_header(&FILE_HEADER), Ok(()));
    assert_eq!(read_file_header(b"WAKF\x01\0\0\0more"), Ok(()));
}

#[test]
fn file_header_with_wrong_magic() {
    assert_eq!(validate_file_header(*b"WAKE\x01\0\0\0"), Err(FormatError::InvalidMagic));
    assert_eq!(
        read_file_header(b"WAKE\x01\0\0\0"),
        Err(error(ErrorKind::InvalidData, "invalid Wakformat magic"))
    );
}

#[test]
fn file_header_with_other_version() {
    assert_eq!(
        validate_file_header(*b"WAKF\x02\x01\0\0"),
        Err(FormatError::UnsupportedVersion(258))
    );
    assert_eq!(
        read_file_header(b"WAKF\x02\x01\0\0"),
        Err(error(ErrorKind::InvalidData, "unsupported Wakformat version 258"))
    );
}

#[test]
fn file_header_with_flags() {
    assert_eq!(
        validate_file_header(*b"WAKF\x01\0\x0a\x01"),
        Err(FormatError::ReservedFileFlags(0x010a))
    );
    assert_eq!(
        read_file_header(b"WAKF\x01\0\x0a\x01"),
        Err(error(ErrorKind::InvalidData, "nonzero Wakformat v1 file flags: 0x010a"))
    );
}

#[test]
fn file_header_that_is_too_short() {
    assert_eq!(
        read_file_header(b"WAKF\x01\0\0"),
        Err(error(ErrorKind::UnexpectedEof, "failed to fill whole buffer"))
    );
    assert_eq!(
        read_file_header(b""),
        Err(error(ErrorKind::UnexpectedEof, "failed to fill whole buffer"))
    );
}

#[test]
fn invalid_makes_an_error() {
    assert_eq!(invalid("no good"), error(ErrorKind::InvalidData, "no good"));
}

#[test]
fn move_has_three_bytes() {
    assert_eq!(encode_move(sample_move()), [12, 71, 5]);
    assert_eq!(sample_move().raw(), 345868);
}

#[test]
fn moves_are_read_back() {
    let flags = [
        MoveFlag::Normal,
        MoveFlag::DoublePush,
        MoveFlag::LongCastling,
        MoveFlag::ShortCastling,
        MoveFlag::PromotionQueen,
        MoveFlag::PromotionRook,
        MoveFlag::PromotionBishop,
        MoveFlag::PromotionKnight,
        MoveFlag::Capture,
        MoveFlag::EnPassant,
        MoveFlag::CapturePromotionQueen,
        MoveFlag::CapturePromotionRook,
        MoveFlag::CapturePromotionBishop,
        MoveFlag::CapturePromotionKnight,
    ];
    for flag in flags {
        for i in 0..64 {
            let mv = Move { src: sq(i), dest: sq((i + 7) % 64), duck: sq((3 * i) % 64), flag };
            assert_eq!(decode_move(encode_move(mv)), Ok(mv));
        }
    }
}

#[test]
fn every_three_bytes_are_those_of_their_move() {
    for raw in (0u32..1 << 24).step_by(977) {
        let b = raw.to_le_bytes();
        let bytes = [b[0], b[1], b[2]];
        match decode_move(bytes) {
            Ok(mv) => assert_eq!(encode_move(mv), bytes),
            Err(e) => assert_eq!(e, FormatError::InvalidMove(raw)),
        }
    }
}

#[test]
fn bytes_that_are_no_move() {
    // The same square twice.
    assert_eq!(decode_move([0, 0, 0]), Err(FormatError::InvalidMove(0)));
    // A flag that stands for nothing.
    let raw: u32 = 12 + 64 * 28 + (10 << 18);
    let b = raw.to_le_bytes();
    assert_eq!(decode_move([b[0], b[1], b[2]]), Err(FormatError::InvalidMove(raw)));
    // A bit too many.
    assert_eq!(decode_move([1, 0, 0x40]), Err(FormatError::InvalidMove(0x400001)));
    assert_eq!(FormatError::InvalidMove(0x2a).message(), "invalid Wakformat v1 move: 0x00002a");
}

#[test]
fn record_has_five_bytes() {
    let record = MoveRecord { mv: sample_move(), white_score: -2 };
    assert_eq!(record.to_bytes(), [12, 71, 5, 0xfe, 0xff]);
    let record = MoveRecord { mv: sample_move(), white_score: 300 };
    assert_eq!(record.to_bytes(), [12, 71, 5, 44, 1]);
}

#[test]
fn records_are_read_back() {
    for score in [i16::MIN, -1, 0, 1, 77, i16::MAX] {
        let record = MoveRecord { mv: sample_move(), white_score: score };
        assert_eq!(MoveRecord::from_bytes(record.to_bytes()), Ok(Some(record)));
    }
}

#[test]
fn terminator_is_no_record() {
    assert_eq!(MoveRecord::from_bytes(GAME_TERMINATOR), Ok(None));
    assert_eq!(
        MoveRecord::from_bytes([0, 0, 0, 1, 0]),
        Err(FormatError::InvalidMove(0))
    );
}

#[test]
fn outcomes_have_numbers() {
    assert_eq!(GameOutcome::try_from(0), Ok(GameOutcome::BlackWin));
    assert_eq!(GameOutcome::try_from(1), Ok(GameOutcome::Draw));
    assert_eq!(GameOutcome::try_from(2), Ok(GameOutcome::WhiteWin));
    assert_eq!(GameOutcome::try_from(3), Err(FormatError::InvalidOutcome(3)));
    assert_eq!(FormatError::InvalidOutcome(200).message(), "invalid Wakformat outcome: 200");
    assert_eq!(GameOutcome::WhiteWin.code(), 2);
}

#[test]
fn squares_have_numbers() {
    assert_eq!(Square::new(File::E, Rank::Fourth).position(), 28);
    assert_eq!(Square::index(63), Square::new(File::H, Rank::Eighth));
    for i in 0..64 {
        assert_eq!(Square::index(i).position(), i);
    }
}

#[test]
fn every_five_bytes_are_those_of_their_record() {
    for raw in (0u32..1 << 24).step_by(9973) {
        let b = raw.to_le_bytes();
        let bytes = [b[0], b[1], b[2], b[1], b[0]];
        if let Ok(Some(record)) = MoveRecord::from_bytes(bytes) {
            assert_eq!(record.to_bytes(), bytes);
        }
    }
}

#[test]
fn numbers_are_shown_in_full() {
    for raw in [0, 0xf, 0xabcdef, 0x1000000, 0xdeadbeef, u32::MAX] {
        assert_eq!(
            FormatError::InvalidMove(raw).message(),
            format!("invalid Wakformat v1 move: {raw:#08x}")
        );
    }
    for flags in [1, 0x10, u16::MAX] {
        assert_eq!(
            FormatError::ReservedFileFlags(flags).message(),
            format!("nonzero Wakformat v1 file flags: {flags:#06x}")
        );
    }
}
