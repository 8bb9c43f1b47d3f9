//! Games as they stand in PGN.
use crate::error::{invalid, Error, ErrorKind};
use crate::format::GameOutcome;
use crate::{error, text};
use vstd::prelude::*;

verus! {

/// What a comment says about a position.
#[derive(Clone, Debug, PartialEq, Eq)]
pub enum Evaluation {
    /// Nothing.
    Missing,
    /// A score in centipawns, from the view of the side to move.
    Score(i16),
    /// What may be a score in pawns, as it is written.
    Number(String),
}

/// The model of an `Evaluation`.
pub enum Rating {
    Missing,
    Score(i16),
    Number(Seq<char>),
}

impl View for Evaluation {
    type V = Rating;

    open spec fn view(&self) -> Rating {
        match self {
            Evaluation::Missing => Rating::Missing,
            Evaluation::Score(v) => Rating::Score(*v),
            Evaluation::Number(s) => Rating::Number(s@),
        }
    }
}

/// Whether `c` separates the words of a comment.
pub open spec fn parts(c: char) -> bool {
    text::is_space(c) || c == '/' || c == '{' || c == '}'
}

/// The predicate of separating the words of a comment.
pub open spec fn gap() -> spec_fn(char) -> bool {
    |c: char| parts(c)
}

/// The predicate of belonging to a word of a comment.
pub open spec fn part() -> spec_fn(char) -> bool {
    |c: char| !parts(c)
}

/// The part of a comment that holds the score: what stands in the tag `[%eval ..]`, or else the
/// first word.
pub open spec fn score_text(s: Seq<char>) -> Seq<char> {
    match text::find_word(s, "[%eval "@, 0) {
        Some(i) => {
            let rest = s.skip(i + "[%eval "@.len());
            text::trim(rest.take(text::find(rest, text::only(']'), 0)))
        },
        None => {
            let a = text::find(s, part(), 0);
            s.subrange(a, text::find(s, gap(), a))
        },
    }
}

/// What a comment says. A mate counts as the highest score.
pub open spec fn rating(s: Seq<char>) -> Rating {
    let t = score_text(s);
    if t.len() == 0 {
        Rating::Missing
    } else if t.contains('M') || t.contains('#') {
        Rating::Score(
            if t[0] == '-' {
                (-32767) as i16
            } else {
                32767
            },
        )
    } else {
        Rating::Number(t)
    }
}

/// Whether `c` separates the words of a comment.
fn is_gap(c: char) -> (r: bool)
    ensures
        r == parts(c),
{
    text::is_whitespace(c) || c == '/' || c == '{' || c == '}'
}

/// The part of a comment that holds the score.
fn find_score(s: &[char]) -> (r: Vec<char>)
    ensures
        r@ == score_text(s@),
{
    match text::position_of_word(s, "[%eval ") {
        Some(i) => {
            let n = text::chars_of("[%eval ").len();
            let len = s.len();
            let rest = text::cut(s, i + n, len);
            assert(rest@ =~= s@.skip(i + n));
            let b = text::find_char(rest.as_slice(), ']', 0);
            let inner = text::cut(rest.as_slice(), 0, b);
            assert(inner@ =~= rest@.take(b as int));
            text::trimmed(inner.as_slice())
        },
        None => {
            let mut a: usize = 0;
            while a < s.len() && is_gap(s[a])
                invariant
                    a <= s@.len(),
                    text::find(s@, part(), 0) == text::find(s@, part(), a as int),
                decreases s@.len() - a,
            {
                a += 1;
            }
            let mut b = a;
            while b < s.len() && !is_gap(s[b])
                invariant
                    a <= b <= s@.len(),
                    text::find(s@, gap(), a as int) == text::find(s@, gap(), b as int),
                decreases s@.len() - b,
            {
                b += 1;
            }
            text::cut(s, a, b)
        },
    }
}

/// Finds a score in a comment. A mate counts as the highest score.
pub fn evaluation(comment: &str) -> (r: Evaluation)
    ensures
        r@ == rating(comment@),
{
    let s = text::chars_of(comment);
    let t = find_score(s.as_slice());
    if t.len() == 0 {
        return Evaluation::Missing;
    }
    let m = text::find_char(t.as_slice(), 'M', 0);
    let h = text::find_char(t.as_slice(), '#', 0);
    proof {
        text::lemma_find(t@, text::only('M'), 0);
        text::lemma_find(t@, text::only('#'), 0);
        assert(m < t@.len() ==> t@[m as int] == 'M');
        assert(h < t@.len() ==> t@[h as int] == '#');
        assert(t@.contains('M') ==> m < t@.len());
        assert(t@.contains('#') ==> h < t@.len());
    }
    if m < t.len() || h < t.len() {
        return Evaluation::Score(
            if t[0] == '-' {
                -32767
            } else {
                32767
            },
        );
    }
    Evaluation::Number(text::text_of(t.as_slice()))
}

/// The outcome that a result stands for, `None` inside for a game that is not finished.
pub open spec fn outcome_in(s: Seq<char>) -> Option<Option<GameOutcome>> {
    if s == "1-0"@ {
        Some(Some(GameOutcome::WhiteWin))
    } else if s == "0-1"@ {
        Some(Some(GameOutcome::BlackWin))
    } else if s == "1/2-1/2"@ {
        Some(Some(GameOutcome::Draw))
    } else if s == "*"@ {
        Some(None)
    } else {
        None
    }
}

/// Reads the result of a game.
pub fn outcome(text: &str) -> (r: Result<Option<GameOutcome>, Error>)
    ensures
        error::agrees(
            r,
            match outcome_in(text@) {
                Some(o) => Ok(o),
                None => Err(error::bad("invalid PGN result"@)),
            },
        ),
{
    let s = text::chars_of(text);
    if text::is_word(s.as_slice(), "1-0") {
        Ok(Some(GameOutcome::WhiteWin))
    } else if text::is_word(s.as_slice(), "0-1") {
        Ok(Some(GameOutcome::BlackWin))
    } else if text::is_word(s.as_slice(), "1/2-1/2") {
        Ok(Some(GameOutcome::Draw))
    } else if text::is_word(s.as_slice(), "*") {
        Ok(None)
    } else {
        Err(invalid("invalid PGN result"))
    }
}

/// The most characters that the text of a move may have.
pub const MAX_PLY_TEXT: usize = 32;

/// The most plies that a game may have.
pub const MAX_PLIES: usize = 100000;

/// Whether all characters are ASCII.
pub open spec fn ascii(s: Seq<char>) -> bool {
    forall|i: int| 0 <= i < s.len() ==> (#[trigger] s[i] as u32) < 128
}

/// Whether all characters are ASCII.
pub fn is_ascii(s: &[char]) -> (r: bool)
    ensures
        r == ascii(s@),
{
    let mut i: usize = 0;
    while i < s.len()
        invariant
            i <= s@.len(),
            forall|j: int| 0 <= j < i ==> (#[trigger] s@[j] as u32) < 128,
        decreases s@.len() - i,
    {
        if s[i] as u32 >= 128 {
            return false;
        }
        i += 1;
    }
    true
}

/// A move of a game as it is written, with what the comments behind it say.
#[derive(Clone, Debug, PartialEq, Eq)]
pub struct Ply {
    pub text: String,
    pub notes: Vec<Evaluation>,
}

/// The model of a `Ply`.
#[verifier::ext_equal]
pub struct PlyText {
    pub text: Seq<char>,
    pub notes: Seq<Rating>,
}

/// What notes say.
pub open spec fn ratings(notes: Seq<Evaluation>) -> Seq<Rating> {
    notes.map_values(|n: Evaluation| n@)
}

impl View for Ply {
    type V = PlyText;

    open spec fn view(&self) -> PlyText {
        PlyText { text: self.text@, notes: ratings(self.notes@) }
    }
}

/// The text of a move that has begun with `s` and goes on with `more`, if it can.
pub open spec fn longer(s: Seq<char>, more: Seq<char>) -> Option<Seq<char>> {
    if s.len() + more.len() <= MAX_PLY_TEXT && ascii(more) {
        Some(s + more)
    } else {
        None
    }
}

/// The error for the text of a move that cannot be.
pub open spec fn bad_ply() -> (ErrorKind, Seq<char>) {
    error::bad("invalid PGN move token"@)
}

impl Ply {
    /// A move that is written as `text`.
    pub fn new(text: &str) -> (r: Result<Ply, Error>)
        ensures
            match (r, longer(seq![], text@)) {
                (Ok(ply), Some(s)) => ply@ == (PlyText { text: s, notes: seq![] }),
                (Err(e), None) => e@ == bad_ply(),
                _ => false,
            },
    {
        let mut ply = Ply { text: String::new(), notes: Vec::new() };
        assert(ply@.text =~= seq![]);
        assert(ply@.notes =~= seq![]);
        match ply.append(text) {
            Ok(()) => Ok(ply),
            Err(e) => Err(e),
        }
    }

    /// Adds `text` to what is written.
    pub fn append(&mut self, text: &str) -> (r: Result<(), Error>)
        ensures
            match (r, longer(old(self)@.text, text@)) {
                (Ok(()), Some(s)) => final(self)@ == (PlyText { text: s, ..old(self)@ }),
                (Err(e), None) => e@ == bad_ply() && final(self)@ == old(self)@,
                _ => false,
            },
    {
        let have = text::chars_of(self.text.as_str()).len();
        let more = text::chars_of(text);
        if have > MAX_PLY_TEXT || more.len() > MAX_PLY_TEXT - have || !is_ascii(more.as_slice()) {
            return Err(invalid("invalid PGN move token"));
        }
        self.text.append(text);
        Ok(())
    }

    /// What is written.
    pub fn text(&self) -> (r: &str)
        ensures
            r@ == self@.text,
    {
        self.text.as_str()
    }
}

/// A game as it is written.
#[derive(Clone, Debug, PartialEq, Eq)]
pub struct Game {
    /// The position in which it starts.
    pub fen: Option<String>,
    /// How it ends, if it ends.
    pub result: Option<GameOutcome>,
    /// What the comments before the first move say.
    pub initial_notes: Vec<Evaluation>,
    pub plies: Vec<Ply>,
}

/// The model of a `Game`.
#[verifier::ext_equal]
pub struct GameText {
    pub fen: Option<Seq<char>>,
    pub result: Option<GameOutcome>,
    pub initial_notes: Seq<Rating>,
    pub plies: Seq<PlyText>,
}

/// What the plies of a game are.
pub open spec fn ply_texts(plies: Seq<Ply>) -> Seq<PlyText> {
    plies.map_values(|p: Ply| p@)
}

impl View for Game {
    type V = GameText;

    open spec fn view(&self) -> GameText {
        GameText {
            fen: match self.fen {
                Some(s) => Some(s@),
                None => None,
            },
            result: self.result,
            initial_notes: ratings(self.initial_notes@),
            plies: ply_texts(self.plies@),
        }
    }
}

} // verus!
