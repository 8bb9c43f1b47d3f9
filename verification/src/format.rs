//! The parts of a game file: file header, game headers and move records.
use vstd::prelude::*;
use vstd::std_specs::convert::TryFromSpecImpl;

pub mod header_offset;

pub use crate::error::invalid;
pub use crate::games::{read_game, replay_move};
pub use crate::header::{pack_header, unpack_header, validate_game_header};

use crate::common::{Move, MoveFlag, Square};
use crate::error::{invalid_text, Error, ErrorKind};
use crate::text::{push_decimal, push_hex};
use crate::{common, error, text};

verus! {

pub const VERSION: u16 = 1;

pub const MAGIC: [u8; 4] = [87, 65, 75, 70];

pub const FILE_HEADER_SIZE: usize = 8;

pub const FILE_HEADER: [u8; 8] = [87, 65, 75, 70, 1, 0, 0, 0];

pub const GAME_HEADER_SIZE: usize = 32;

pub const MOVE_SIZE: usize = 3;

pub const SCORE_SIZE: usize = 2;

pub const RECORD_SIZE: usize = 5;

pub const GAME_TERMINATOR: [u8; 5] = [0, 0, 0, 0, 0];

pub const NO_SQUARE: u8 = 64;

pub const MAX_PIECES: usize = 32;

pub const MOVE_BITS: u32 = 0x3f_ffff;

pub type GameHeaderBytes = [u8; 32];

/// How a game ended.
#[derive(Clone, Copy, Debug, PartialEq, Eq, Structural)]
pub enum GameOutcome {
    BlackWin,
    Draw,
    WhiteWin,
}

impl GameOutcome {
    /// The number that stands for the outcome in packed data.
    pub open spec fn number(self) -> int {
        match self {
            GameOutcome::BlackWin => 0,
            GameOutcome::Draw => 1,
            GameOutcome::WhiteWin => 2,
        }
    }

    /// The number that stands for the outcome in packed data.
    pub fn code(self) -> (r: u8)
        ensures
            r == self.number(),
    {
        match self {
            GameOutcome::BlackWin => 0,
            GameOutcome::Draw => 1,
            GameOutcome::WhiteWin => 2,
        }
    }
}

/// What is wrong with packed data.
#[derive(Clone, Copy, Debug, PartialEq, Eq, Structural)]
pub enum FormatError {
    InvalidMagic,
    UnsupportedVersion(u16),
    ReservedFileFlags(u16),
    InvalidMove(u32),
    InvalidOutcome(u8),
}

impl FormatError {
    /// The message for people.
    pub open spec fn text(self) -> Seq<char> {
        match self {
            FormatError::InvalidMagic => "invalid Wakformat magic"@,
            FormatError::UnsupportedVersion(version) => "unsupported Wakformat version "@
                + text::decimal(version as nat),
            FormatError::ReservedFileFlags(flags) => "nonzero Wakformat v1 file flags: 0x"@ + text::hex(
                flags as nat,
                4,
            ),
            FormatError::InvalidMove(raw) => "invalid Wakformat v1 move: 0x"@ + text::hex(raw as nat, 6),
            FormatError::InvalidOutcome(value) => "invalid Wakformat outcome: "@ + text::decimal(
                value as nat,
            ),
        }
    }

    /// The message for people.
    pub fn message(self) -> (s: String)
        ensures
            s@ == self.text(),
    {
        match self {
            FormatError::InvalidMagic => "invalid Wakformat magic".to_owned(),
            FormatError::UnsupportedVersion(version) => {
                let mut s = "unsupported Wakformat version ".to_owned();
                push_decimal(&mut s, version as u64);
                s
            },
            FormatError::ReservedFileFlags(flags) => {
                let mut s = "nonzero Wakformat v1 file flags: 0x".to_owned();
                push_hex(&mut s, flags as u32, 4);
                s
            },
            FormatError::InvalidMove(raw) => {
                let mut s = "invalid Wakformat v1 move: 0x".to_owned();
                push_hex(&mut s, raw, 6);
                s
            },
            FormatError::InvalidOutcome(value) => {
                let mut s = "invalid Wakformat outcome: ".to_owned();
                push_decimal(&mut s, value as u64);
                s
            },
        }
    }
}

impl TryFrom<u8> for GameOutcome {
    type Error = FormatError;

    fn try_from(value: u8) -> (r: Result<Self, FormatError>) {
        match value {
            0 => Ok(GameOutcome::BlackWin),
            1 => Ok(GameOutcome::Draw),
            2 => Ok(GameOutcome::WhiteWin),
            _ => Err(FormatError::InvalidOutcome(value)),
        }
    }
}

/// The outcome that `value` stands for.
pub open spec fn outcome_of(value: u8) -> Result<GameOutcome, FormatError> {
    match value {
        0u8 => Ok(GameOutcome::BlackWin),
        1u8 => Ok(GameOutcome::Draw),
        2u8 => Ok(GameOutcome::WhiteWin),
        _ => Err(FormatError::InvalidOutcome(value)),
    }
}

impl TryFromSpecImpl<u8> for GameOutcome {
    open spec fn obeys_try_from_spec() -> bool {
        true
    }

    open spec fn try_from_spec(v: u8) -> Result<Self, FormatError> {
        outcome_of(v)
    }
}

/// The move that the number `raw` stands for: 22 bits that hold different squares for source and
/// destination, and a known flag.
pub open spec fn move_of(raw: int) -> Option<Move> {
    if 0 <= raw < 0x40_0000 && raw % 64 != (raw / 64) % 64 {
        match MoveFlag::of(raw / 262144) {
            Some(flag) => Some(
                Move {
                    src: Square::of(raw % 64),
                    dest: Square::of((raw / 64) % 64),
                    duck: Square::of((raw / 4096) % 64),
                    flag,
                },
            ),
            None => None,
        }
    } else {
        None
    }
}

/// The three bytes of a move.
pub open spec fn move_bytes(mv: Move) -> Seq<u8> {
    let n = mv.number();
    seq![(n % 256) as u8, ((n / 256) % 256) as u8, ((n / 65536) % 256) as u8]
}

/// The move that three bytes stand for.
pub open spec fn bytes_move(bytes: Seq<u8>) -> Result<Move, FormatError> {
    let raw = bytes[0] + 256 * bytes[1] + 65536 * bytes[2];
    match move_of(raw) {
        Some(mv) => Ok(mv),
        None => Err(FormatError::InvalidMove(raw as u32)),
    }
}

/// Packs a move.
pub fn encode_move(mv: Move) -> (r: [u8; 3])
    ensures
        r@ == move_bytes(mv),
{
    let n = mv.raw();
    let r = [(n % 256) as u8, ((n / 256) % 256) as u8, ((n / 65536) % 256) as u8];
    assert(r@ =~= move_bytes(mv));
    r
}

/// Unpacks a move.
pub fn decode_move(bytes: [u8; 3]) -> (r: Result<Move, FormatError>)
    ensures
        r == bytes_move(bytes@),
{
    let raw = bytes[0] as u32 + 256 * (bytes[1] as u32) + 65536 * (bytes[2] as u32);
    if raw > MOVE_BITS || raw % 64 == (raw / 64) % 64 {
        return Err(FormatError::InvalidMove(raw));
    }
    match MoveFlag::from_code(raw / 262144) {
        Some(flag) => Ok(
            Move {
                src: Square::index((raw % 64) as usize),
                dest: Square::index(((raw / 64) % 64) as usize),
                duck: Square::index(((raw / 4096) % 64) as usize),
                flag,
            },
        ),
        None => Err(FormatError::InvalidMove(raw)),
    }
}

/// A move with the evaluation of the position before it, in centipawns for White.
#[derive(Clone, Copy, Debug, PartialEq, Eq, Structural)]
pub struct MoveRecord {
    pub mv: Move,
    pub white_score: i16,
}

/// The two bytes of a score.
pub open spec fn score_bytes(score: i16) -> Seq<u8> {
    let n = if score < 0 {
        score + 65536
    } else {
        score as int
    };
    seq![(n % 256) as u8, (n / 256) as u8]
}

/// The score that two bytes stand for.
pub open spec fn bytes_score(low: u8, high: u8) -> i16 {
    let n = low + 256 * high;
    if n >= 32768 {
        (n - 65536) as i16
    } else {
        n as i16
    }
}

impl MoveRecord {
    /// The five bytes of the record.
    pub open spec fn bytes(self) -> Seq<u8> {
        move_bytes(self.mv) + score_bytes(self.white_score)
    }

    /// What five bytes stand for: nothing if they end a game, else a record.
    pub open spec fn of(bytes: Seq<u8>) -> Result<Option<MoveRecord>, FormatError> {
        if bytes == GAME_TERMINATOR@ {
            Ok(None)
        } else {
            match bytes_move(bytes.take(3)) {
                Ok(mv) => Ok(Some(MoveRecord { mv, white_score: bytes_score(bytes[3], bytes[4]) })),
                Err(e) => Err(e),
            }
        }
    }

    /// Packs the record.
    pub fn to_bytes(self) -> (r: [u8; 5])
        ensures
            r@ == self.bytes(),
    {
        let mv = encode_move(self.mv);
        let n: u32 = if self.white_score < 0 {
            (self.white_score as i32 + 65536) as u32
        } else {
            self.white_score as u32
        };
        let r = [mv[0], mv[1], mv[2], (n % 256) as u8, (n / 256) as u8];
        assert(r@ =~= self.bytes());
        r
    }

    /// Unpacks a record, or nothing if the bytes end a game.
    pub fn from_bytes(bytes: [u8; 5]) -> (r: Result<Option<MoveRecord>, FormatError>)
        ensures
            r == MoveRecord::of(bytes@),
    {
        if is_terminator(&bytes, 0) {
            assert(bytes@.subrange(0, 5) =~= bytes@);
            return Ok(None);
        }
        assert(bytes@.subrange(0, 5) =~= bytes@);
        let three = [bytes[0], bytes[1], bytes[2]];
        assert(three@ =~= bytes@.take(3));
        let mv = match decode_move(three) {
            Ok(mv) => mv,
            Err(e) => return Err(e),
        };
        let n = bytes[3] as i32 + 256 * (bytes[4] as i32);
        let white_score = if n >= 32768 {
            (n - 65536) as i16
        } else {
            n as i16
        };
        Ok(Some(MoveRecord { mv, white_score }))
    }
}

/// Whether the five bytes from index `i` on end a game.
pub fn is_terminator(bytes: &[u8], i: usize) -> (r: bool)
    requires
        i + 5 <= bytes@.len(),
    ensures
        r == (bytes@.subrange(i as int, i + 5) == GAME_TERMINATOR@),
{
    let r = bytes[i] == 0 && bytes[i + 1] == 0 && bytes[i + 2] == 0 && bytes[i + 3] == 0 && bytes[i
        + 4] == 0;
    let ghost five = bytes@.subrange(i as int, i + 5);
    proof {
        let end = GAME_TERMINATOR;
        assert(end@[0] == 0 && end@[1] == 0 && end@[2] == 0 && end@[3] == 0 && end@[4] == 0);
        if r {
            assert(five =~= end@);
        } else {
            assert(five[0] != 0 || five[1] != 0 || five[2] != 0 || five[3] != 0 || five[4] != 0);
        }
    }
    r
}

/// What is wrong with the header of a file.
pub open spec fn file_fault(bytes: Seq<u8>) -> Option<FormatError> {
    let version = bytes[4] + 256 * bytes[5];
    let flags = bytes[6] + 256 * bytes[7];
    if bytes.take(4) != MAGIC@ {
        Some(FormatError::InvalidMagic)
    } else if version != VERSION {
        Some(FormatError::UnsupportedVersion(version as u16))
    } else if flags != 0 {
        Some(FormatError::ReservedFileFlags(flags as u16))
    } else {
        None
    }
}

/// Checks the header of a file.
pub fn validate_file_header(bytes: [u8; 8]) -> (r: Result<(), FormatError>)
    ensures
        r == match file_fault(bytes@) {
            Some(e) => Err(e),
            None => Ok(()),
        },
{
    let ghost four = bytes@.take(4);
    assert(four[0] == bytes@[0] && four[1] == bytes@[1] && four[2] == bytes@[2] && four[3]
        == bytes@[3]);
    if bytes[0] != MAGIC[0] || bytes[1] != MAGIC[1] || bytes[2] != MAGIC[2] || bytes[3]
        != MAGIC[3] {
        return Err(FormatError::InvalidMagic);
    }
    assert(four =~= MAGIC@);
    let version = bytes[4] as u16 + 256 * (bytes[5] as u16);
    if version != VERSION {
        return Err(FormatError::UnsupportedVersion(version));
    }
    let flags = bytes[6] as u16 + 256 * (bytes[7] as u16);
    if flags != 0 {
        return Err(FormatError::ReservedFileFlags(flags));
    }
    Ok(())
}

/// The error for data that ends where more is needed.
pub open spec fn short() -> (ErrorKind, Seq<char>) {
    (ErrorKind::UnexpectedEof, "failed to fill whole buffer"@)
}

/// The error for data that ends where more is needed.
pub fn too_short() -> (e: Error)
    ensures
        e@ == short(),
{
    Error {
        kind: ErrorKind::UnexpectedEof,
        message: "failed to fill whole buffer".to_owned(),
    }
}

/// Checks the file header with which `input` begins.
pub fn read_file_header(input: &[u8]) -> (r: Result<(), Error>)
    ensures
        error::agrees(
            r,
            if input@.len() < FILE_HEADER_SIZE {
                Err(short())
            } else {
                match file_fault(input@.take(8)) {
                    Some(e) => Err(error::bad(e.text())),
                    None => Ok(()),
                }
            },
        ),
{
    if input.len() < FILE_HEADER_SIZE {
        return Err(too_short());
    }
    let bytes = [
        input[0],
        input[1],
        input[2],
        input[3],
        input[4],
        input[5],
        input[6],
        input[7],
    ];
    assert(bytes@ =~= input@.take(8));
    match validate_file_header(bytes) {
        Ok(()) => Ok(()),
        Err(e) => Err(invalid_text(e.message())),
    }
}

/// Four fields of one number can be read back from it.
proof fn lemma_fields(a: int, b: int, c: int, d: int, n: int)
    requires
        0 <= a < 64,
        0 <= b < 64,
        0 <= c < 64,
        0 <= d < 16,
        n == a + 64 * b + 4096 * c + 262144 * d,
    ensures
        n % 64 == a,
        (n / 64) % 64 == b,
        (n / 4096) % 64 == c,
        n / 262144 == d,
        0 <= n < 0x40_0000,
{
    assert(n / 64 == b + 64 * c + 4096 * d);
    assert(n / 4096 == c + 64 * d);
}

/// A number is made of its four fields.
proof fn lemma_fields_of(n: int)
    requires
        0 <= n < 0x40_0000,
    ensures
        n == n % 64 + 64 * ((n / 64) % 64) + 4096 * ((n / 4096) % 64) + 262144 * (n / 262144),
        0 <= n / 262144 < 16,
{
    assert(n / 4096 == (n / 64) / 64);
    assert(n / 262144 == (n / 4096) / 64);
}

/// A number below 2^24 is made of three bytes.
proof fn lemma_three_bytes(n: int)
    requires
        0 <= n < 0x100_0000,
    ensures
        n == n % 256 + 256 * ((n / 256) % 256) + 65536 * ((n / 65536) % 256),
{
    assert(n / 65536 == (n / 256) / 256);
}

/// Three bytes can be read back from their number.
pub proof fn lemma_bytes_back(a: int, b: int, c: int, n: int)
    requires
        0 <= a < 256,
        0 <= b < 256,
        0 <= c < 256,
        n == a + 256 * b + 65536 * c,
    ensures
        n % 256 == a,
        (n / 256) % 256 == b,
        (n / 65536) % 256 == c,
{
    assert(n / 256 == b + 256 * c);
    assert(n / 65536 == c);
}

/// Unpacking a packed move gives the move back, if it goes anywhere.
pub proof fn law_move_round_trip(mv: Move)
    requires
        mv.src != mv.dest,
    ensures
        bytes_move(move_bytes(mv)) == Ok::<Move, FormatError>(mv),
{
    let n = mv.number();
    let (s, t, d, f) = (mv.src.at(), mv.dest.at(), mv.duck.at(), mv.flag.number());
    assert(s != t) by {
        common::lemma_square_number(mv.src);
        common::lemma_square_number(mv.dest);
    }
    common::lemma_square_number(mv.src);
    common::lemma_square_number(mv.dest);
    common::lemma_square_number(mv.duck);
    common::lemma_flag_number(mv.flag);
    lemma_fields(s, t, d, f, n);
    lemma_three_bytes(n);
    assert(move_of(n) == Some(mv));
}

/// Three bytes that stand for a move are the bytes of that move.
pub proof fn law_move_bytes_unique(bytes: Seq<u8>)
    requires
        bytes.len() == 3,
        bytes_move(bytes) is Ok,
    ensures
        move_bytes(bytes_move(bytes)->Ok_0) == bytes,
{
    let raw = bytes[0] + 256 * bytes[1] + 65536 * bytes[2];
    let mv = bytes_move(bytes)->Ok_0;
    common::lemma_number_square(raw % 64);
    common::lemma_number_square((raw / 64) % 64);
    common::lemma_number_square((raw / 4096) % 64);
    common::lemma_number_flag(raw / 262144);
    lemma_fields_of(raw);
    assert(mv.number() == raw);
    lemma_bytes_back(bytes[0] as int, bytes[1] as int, bytes[2] as int, raw);
    assert(move_bytes(mv) =~= bytes);
}

/// Unpacking a packed record gives the record back, if its move goes anywhere. No such record
/// looks like the end of a game.
pub proof fn law_record_round_trip(record: MoveRecord)
    requires
        record.mv.src != record.mv.dest,
    ensures
        record.bytes().len() == RECORD_SIZE,
        MoveRecord::of(record.bytes()) == Ok::<Option<MoveRecord>, FormatError>(Some(record)),
{
    let b = record.bytes();
    law_move_round_trip(record.mv);
    assert(b.take(3) =~= move_bytes(record.mv));
    assert(bytes_score(b[3], b[4]) == record.white_score);
    let end = GAME_TERMINATOR;
    if b == end@ {
        assert(end@[0] == 0 && end@[1] == 0 && end@[2] == 0);
        assert(move_bytes(record.mv)[0] == 0);
        assert(move_bytes(record.mv)[1] == 0);
        assert(move_bytes(record.mv)[2] == 0);
        assert(false);
    }
}

/// Five bytes that stand for a record are the bytes of that record.
pub proof fn law_record_bytes_unique(bytes: Seq<u8>)
    requires
        bytes.len() == RECORD_SIZE,
        MoveRecord::of(bytes) matches Ok(Some(_)),
    ensures
        MoveRecord::of(bytes)->Ok_0->0.bytes() == bytes,
{
    let record = MoveRecord::of(bytes)->Ok_0->0;
    law_move_bytes_unique(bytes.take(3));
    assert(score_bytes(record.white_score) =~= seq![bytes[3], bytes[4]]);
    assert(record.bytes() =~= bytes);
}

/// The header that every file begins with passes its own check.
pub proof fn law_file_header_is_valid()
    ensures
        file_fault(FILE_HEADER@) is None,
        FILE_HEADER@.len() == FILE_HEADER_SIZE,
{
    let h = FILE_HEADER;
    let m = MAGIC;
    assert(h@[4] == 1 && h@[5] == 0 && h@[6] == 0 && h@[7] == 0);
    assert(h@.take(4) =~= m@);
}

} // verus!
