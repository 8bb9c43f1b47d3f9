//! Numbers by which positions are told apart.
use crate::board::{Board, CastlingRights, Position};
use crate::common::{Color, File, Man, Square};
use vstd::prelude::*;

verus! {

/// Where hashing starts.
pub const HASH_START: u64 = 0xcbf29ce484222325;

/// The factor of one step.
pub const HASH_FACTOR: u64 = 0x100000001b3;

/// `h` with the value `v` taken in.
pub open spec fn mixed(h: u64, v: u64) -> u64 {
    (h ^ v).wrapping_mul(HASH_FACTOR)
}

/// `h` with its bits spread.
pub open spec fn spread(h: u64) -> u64 {
    let a = (h ^ (h >> 30)).wrapping_mul(0xbf58476d1ce4e5b9);
    let b = (a ^ (a >> 27)).wrapping_mul(0x94d049bb133111eb);
    b ^ (b >> 31)
}

/// A number for what stands on a square.
pub open spec fn man_value(man: Option<Man>) -> u64 {
    match man {
        Some(m) => (1 + 6 * m.color.number() + m.piece.number()) as u64,
        None => 0,
    }
}

/// A number for a file that may be missing.
pub open spec fn file_value(file: Option<File>) -> u64 {
    match file {
        Some(f) => (1 + f.at()) as u64,
        None => 0,
    }
}

/// The number `h` with what stands on the squares from `i` on taken in.
pub open spec fn men_hash(squares: Seq<Option<Man>>, i: int, h: u64) -> u64
    decreases 64 - i,
{
    if i >= 64 {
        h
    } else {
        men_hash(squares, i + 1, mixed(h, man_value(squares[i])))
    }
}

/// The number `h` with castling rights taken in.
pub open spec fn rights_hash(h: u64, rights: CastlingRights) -> u64 {
    mixed(mixed(h, file_value(rights.short)), file_value(rights.long))
}

/// The number of a position. What stands where, the side to move, the castling rights, the pawn
/// that may be taken in passing and the duck count; the counters of moves do not.
pub open spec fn position_hash(p: Position) -> u64 {
    let men = men_hash(p.squares, 0, HASH_START);
    let side = mixed(men, p.stm.number() as u64);
    let rights = rights_hash(rights_hash(side, p.white_castling), p.black_castling);
    let passing = mixed(rights, file_value(p.en_passant));
    let duck = mixed(
        passing,
        match p.duck {
            Some(s) => (1 + s.at()) as u64,
            None => 0,
        },
    );
    spread(duck)
}

/// `h` with the value `v` taken in.
fn mix(h: u64, v: u64) -> (r: u64)
    ensures
        r == mixed(h, v),
{
    (h ^ v).wrapping_mul(HASH_FACTOR)
}

/// A number for a file that may be missing.
fn value_of_file(file: Option<File>) -> (r: u64)
    ensures
        r == file_value(file),
{
    match file {
        Some(f) => 1 + f.position() as u64,
        None => 0,
    }
}

/// The number `h` with castling rights taken in.
fn mix_rights(h: u64, rights: CastlingRights) -> (r: u64)
    ensures
        r == rights_hash(h, rights),
{
    mix(mix(h, value_of_file(rights.short)), value_of_file(rights.long))
}

impl Board {
    /// The number of the position.
    pub fn hash(&self) -> (r: u64)
        ensures
            r == position_hash(self@),
    {
        let mut h = HASH_START;
        let mut i: usize = 0;
        while i < 64
            invariant
                i <= 64,
                men_hash(self@.squares, 0, HASH_START) == men_hash(self@.squares, i as int, h),
            decreases 64 - i,
        {
            let v: u64 = match self.squares[i] {
                Some(m) => 1 + 6 * (m.color.code() as u64) + m.piece.code() as u64,
                None => 0,
            };
            h = mix(h, v);
            i += 1;
        }
        h = mix(h, self.stm.code() as u64);
        h = mix_rights(mix_rights(h, self.white_castling), self.black_castling);
        h = mix(h, value_of_file(self.en_passant));
        let duck: u64 = match self.duck {
            Some(s) => 1 + s.position() as u64,
            None => 0,
        };
        h = mix(h, duck);
        let a = (h ^ (h >> 30)).wrapping_mul(0xbf58476d1ce4e5b9);
        let b = (a ^ (a >> 27)).wrapping_mul(0x94d049bb133111eb);
        b ^ (b >> 31)
    }
}

/// Multiplying by a number that has an inverse loses nothing.
proof fn lemma_factor(a: int, b: int, c: int, inverse: int, k: int)
    requires
        0 <= a < 0x1_0000_0000_0000_0000,
        0 <= b < 0x1_0000_0000_0000_0000,
        c * inverse == 1 + k * 0x1_0000_0000_0000_0000,
        (a * c) % 0x1_0000_0000_0000_0000 == (b * c) % 0x1_0000_0000_0000_0000,
    ensures
        a == b,
{
    let m = 0x1_0000_0000_0000_0000int;
    let (x, y) = (a * c, b * c);
    let z = x / m - y / m;
    let d = a - b;
    assert(x - y == m * z);
    assert(d * c == m * z) by (nonlinear_arith)
        requires
            d == a - b,
            x == a * c,
            y == b * c,
            x - y == m * z,
    ;
    assert(d * (c * inverse) == m * (z * inverse)) by (nonlinear_arith)
        requires
            d * c == m * z,
    ;
    let w = z * inverse - d * k;
    assert(d == m * w) by (nonlinear_arith)
        requires
            d * (c * inverse) == m * (z * inverse),
            c * inverse == 1 + k * m,
            w == z * inverse - d * k,
    ;
    assert(w == 0) by (nonlinear_arith)
        requires
            d == m * w,
            -m < d < m,
            m > 0,
    ;
}

/// A step of hashing loses neither the number before it nor the value.
proof fn lemma_mixed(h: u64, g: u64, v: u64, w: u64)
    ensures
        h != g ==> mixed(h, v) != mixed(g, v),
        v != w ==> mixed(h, v) != mixed(h, w),
{
    if mixed(h, v) == mixed(g, v) {
        lemma_mixed_same(h ^ v, g ^ v);
        assert(h == g) by (bit_vector)
            requires
                h ^ v == g ^ v,
        ;
    }
    if mixed(h, v) == mixed(h, w) {
        lemma_mixed_same(h ^ v, h ^ w);
        assert(v == w) by (bit_vector)
            requires
                h ^ v == h ^ w,
        ;
    }
}

proof fn lemma_mixed_same(a: u64, b: u64)
    requires
        a.wrapping_mul(HASH_FACTOR) == b.wrapping_mul(HASH_FACTOR),
    ensures
        a == b,
{
    lemma_factor(a as int, b as int, 0x100000001b3, 0xce965057aff6957b, 887285111055);
}

/// Spreading the bits loses nothing.
proof fn lemma_spread(a: u64, b: u64)
    requires
        a != b,
    ensures
        spread(a) != spread(b),
{
    if spread(a) == spread(b) {
        let (a1, b1) = (a ^ (a >> 30), b ^ (b >> 30));
        let (a2, b2) = (
            a1.wrapping_mul(0xbf58476d1ce4e5b9),
            b1.wrapping_mul(0xbf58476d1ce4e5b9),
        );
        let (a3, b3) = (a2 ^ (a2 >> 27), b2 ^ (b2 >> 27));
        let (a4, b4) = (
            a3.wrapping_mul(0x94d049bb133111eb),
            b3.wrapping_mul(0x94d049bb133111eb),
        );
        assert(a4 == b4) by (bit_vector)
            requires
                a4 ^ (a4 >> 31) == b4 ^ (b4 >> 31),
        ;
        lemma_factor(
            a3 as int,
            b3 as int,
            0x94d049bb133111eb,
            0x319642b2d24d8ec3,
            2077064247507883091,
        );
        assert(a2 == b2) by (bit_vector)
            requires
                a2 ^ (a2 >> 27) == b2 ^ (b2 >> 27),
        ;
        lemma_factor(
            a1 as int,
            b1 as int,
            0xbf58476d1ce4e5b9,
            0x96de1b173f119089,
            8125545580553827436,
        );
        assert(a == b) by (bit_vector)
            requires
                a ^ (a >> 30) == b ^ (b >> 30),
        ;
    }
}

/// Different numbers stay different over the same men.
proof fn lemma_men_keep(squares: Seq<Option<Man>>, i: int, h: u64, g: u64)
    requires
        h != g,
    ensures
        men_hash(squares, i, h) != men_hash(squares, i, g),
    decreases 64 - i,
{
    if i < 64 {
        let v = man_value(squares[i]);
        lemma_mixed(h, g, v, v);
        lemma_men_keep(squares, i + 1, mixed(h, v), mixed(g, v));
    }
}

/// One other man makes another number.
proof fn lemma_men_differ(
    a: Seq<Option<Man>>,
    b: Seq<Option<Man>>,
    i: int,
    k: int,
    h: u64,
)
    requires
        0 <= i <= k < 64,
        man_value(a[k]) != man_value(b[k]),
        forall|j: int| 0 <= j < 64 && j != k ==> #[trigger] a[j] == b[j],
    ensures
        men_hash(a, i, h) != men_hash(b, i, h),
    decreases k - i,
{
    if i < k {
        assert(a[i] == b[i]);
        lemma_men_differ(a, b, i + 1, k, mixed(h, man_value(a[i])));
    } else {
        let (v, w) = (man_value(a[k]), man_value(b[k]));
        lemma_mixed(h, h, v, w);
        lemma_men_keep(a, k + 1, mixed(h, v), mixed(h, w));
        lemma_same_rest(a, b, k + 1, mixed(h, w));
    }
}

proof fn lemma_same_rest(a: Seq<Option<Man>>, b: Seq<Option<Man>>, i: int, h: u64)
    requires
        0 <= i,
        forall|j: int| i <= j < 64 ==> #[trigger] a[j] == b[j],
    ensures
        men_hash(a, i, h) == men_hash(b, i, h),
    decreases 64 - i,
{
    if i < 64 {
        assert(a[i] == b[i]);
        lemma_same_rest(a, b, i + 1, mixed(h, man_value(a[i])));
    }
}

proof fn lemma_man_value(a: Option<Man>, b: Option<Man>)
    ensures
        man_value(a) == man_value(b) <==> a == b,
{
    if a is Some && b is Some {
        let (m, n) = (a->0, b->0);
        match m.color {
            Color::White => {},
            Color::Black => {},
        }
        match n.color {
            Color::White => {},
            Color::Black => {},
        }
    }
}

proof fn lemma_file_value(a: Option<File>, b: Option<File>)
    ensures
        file_value(a) == file_value(b) <==> a == b,
{
    if a is Some {
        assert(File::of(a->0.at()) == a->0);
    }
    if b is Some {
        assert(File::of(b->0.at()) == b->0);
    }
}

/// Positions that differ in one thing have different numbers: in what stands on one square, the side
/// to move, one castling right, the pawn that may be taken in passing, or the duck.
pub proof fn law_one_difference_shows(p: Position, q: Position, k: int)
    requires
        p.squares.len() == 64,
        q.squares.len() == 64,
        0 <= k < 64,
        ({
            let same = Position { hmc: p.hmc, fmc: p.fmc, ..q };
            ||| p == (Position { squares: p.squares, ..same }) && p.squares[k] != q.squares[k]
                && forall|j: int| 0 <= j < 64 && j != k ==> #[trigger] p.squares[j] == q.squares[j]
            ||| p == (Position { stm: p.stm, ..same }) && p.stm != q.stm
            ||| p == (Position { white_castling: p.white_castling, ..same })
                && (p.white_castling.short == q.white_castling.short) != (p.white_castling.long
                == q.white_castling.long)
            ||| p == (Position { black_castling: p.black_castling, ..same })
                && (p.black_castling.short == q.black_castling.short) != (p.black_castling.long
                == q.black_castling.long)
            ||| p == (Position { en_passant: p.en_passant, ..same }) && p.en_passant != q.en_passant
            ||| p == (Position { duck: p.duck, ..same }) && p.duck != q.duck
        }),
    ensures
        position_hash(p) != position_hash(q),
{
    let (v, w) = (values_behind(p), values_behind(q));
    let (a, b) = (
        men_hash(p.squares, 0, HASH_START),
        men_hash(q.squares, 0, HASH_START),
    );
    lemma_file_value(p.white_castling.short, q.white_castling.short);
    lemma_file_value(p.white_castling.long, q.white_castling.long);
    lemma_file_value(p.black_castling.short, q.black_castling.short);
    lemma_file_value(p.black_castling.long, q.black_castling.long);
    lemma_file_value(p.en_passant, q.en_passant);
    lemma_duck_value(p.duck, q.duck);
    if p.squares[k] != q.squares[k] {
        lemma_man_value(p.squares[k], q.squares[k]);
        lemma_men_differ(p.squares, q.squares, 0, k, HASH_START);
        assert(v =~= w);
        lemma_chain_keep(v, 0, a, b);
    } else {
        let i = first_difference(v, w);
        lemma_chain_differ(v, w, 0, i, a);
    }
    lemma_chain(p);
    lemma_chain(q);
    lemma_spread(chain(v, 0, a), chain(w, 0, b));
}

/// A number for where the duck stands.
spec fn duck_value(duck: Option<Square>) -> u64 {
    match duck {
        Some(s) => (1 + s.at()) as u64,
        None => 0,
    }
}

proof fn lemma_duck_value(a: Option<Square>, b: Option<Square>)
    ensures
        duck_value(a) == duck_value(b) <==> a == b,
{
    if a is Some {
        crate::common::lemma_square_number(a->0);
    }
    if b is Some {
        crate::common::lemma_square_number(b->0);
    }
}

/// What is taken in behind the men.
spec fn values_behind(p: Position) -> Seq<u64> {
    seq![
        p.stm.number() as u64,
        file_value(p.white_castling.short),
        file_value(p.white_castling.long),
        file_value(p.black_castling.short),
        file_value(p.black_castling.long),
        file_value(p.en_passant),
        duck_value(p.duck),
    ]
}

/// The number `h` with the values from `i` on taken in.
spec fn chain(v: Seq<u64>, i: int, h: u64) -> u64
    decreases v.len() - i,
{
    if i >= v.len() {
        h
    } else {
        chain(v, i + 1, mixed(h, v[i]))
    }
}

proof fn lemma_chain(p: Position)
    ensures
        position_hash(p) == spread(
            chain(values_behind(p), 0, men_hash(p.squares, 0, HASH_START)),
        ),
{
    reveal_with_fuel(chain, 8);
}

proof fn lemma_chain_keep(v: Seq<u64>, i: int, h: u64, g: u64)
    requires
        0 <= i,
        h != g,
    ensures
        chain(v, i, h) != chain(v, i, g),
    decreases v.len() - i,
{
    if i < v.len() {
        lemma_mixed(h, g, v[i], v[i]);
        lemma_chain_keep(v, i + 1, mixed(h, v[i]), mixed(g, v[i]));
    }
}

proof fn lemma_chain_differ(v: Seq<u64>, w: Seq<u64>, i: int, k: int, h: u64)
    requires
        0 <= i <= k < v.len(),
        v.len() == w.len(),
        v[k] != w[k],
        forall|j: int| 0 <= j < v.len() && j != k ==> #[trigger] v[j] == w[j],
    ensures
        chain(v, i, h) != chain(w, i, h),
    decreases k - i,
{
    if i < k {
        assert(v[i] == w[i]);
        lemma_chain_differ(v, w, i + 1, k, mixed(h, v[i]));
    } else {
        lemma_mixed(h, h, v[k], w[k]);
        lemma_chain_keep(v, k + 1, mixed(h, v[k]), mixed(h, w[k]));
        lemma_chain_same(v, w, k + 1, mixed(h, w[k]));
    }
}

proof fn lemma_chain_same(v: Seq<u64>, w: Seq<u64>, i: int, h: u64)
    requires
        0 <= i,
        v.len() == w.len(),
        forall|j: int| i <= j < v.len() ==> #[trigger] v[j] == w[j],
    ensures
        chain(v, i, h) == chain(w, i, h),
    decreases v.len() - i,
{
    if i < v.len() {
        assert(v[i] == w[i]);
        lemma_chain_same(v, w, i + 1, mixed(h, v[i]));
    }
}

/// The first place at which two sequences differ.
spec fn first_difference(v: Seq<u64>, w: Seq<u64>) -> int {
    if v[0] != w[0] {
        0
    } else if v[1] != w[1] {
        1
    } else if v[2] != w[2] {
        2
    } else if v[3] != w[3] {
        3
    } else if v[4] != w[4] {
        4
    } else if v[5] != w[5] {
        5
    } else {
        6
    }
}

} // verus!
