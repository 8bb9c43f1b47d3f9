//! Putting games together from the tokens of PGN.
use crate::error::{invalid, invalid_text, Error, ErrorKind};
use crate::format::GameOutcome;
use crate::movetext::{
    evaluation, outcome, Evaluation, Game, GameText, Ply, PlyText, Rating, MAX_PLIES,
};
use crate::pgn::{is_result, Pgn, Reader, Token};
use crate::{error, movetext, pgn, text};
use vstd::prelude::*;

verus! {

/// A game that is being put together.
pub struct Draft {
    pub game: Game,
    /// How deep inside variations the next token is.
    pub depth: usize,
    /// Whether there has been anything of a game.
    pub seen: bool,
}

/// The model of a `Draft`.
#[verifier::ext_equal]
pub struct Sketch {
    pub game: GameText,
    pub depth: int,
    pub seen: bool,
}

impl View for Draft {
    type V = Sketch;

    open spec fn view(&self) -> Sketch {
        Sketch { game: self.game@, depth: self.depth as int, seen: self.seen }
    }
}

/// What comes of a token.
pub enum Taken {
    /// The game goes on.
    More,
    /// The game is complete.
    Done,
    /// The game cannot be read.
    Fail(Error),
    /// The game cannot be read, and the token, a tag, belongs to the next one.
    Tag(Error),
}

/// The model of what comes of a token.
pub enum Step {
    More(Sketch),
    Done(GameText),
    Fail((ErrorKind, Seq<char>)),
    Tag((ErrorKind, Seq<char>)),
}

/// Whether `r` is what `step` describes, and leaves the draft as `after`.
pub open spec fn follows(r: Taken, after: Sketch, step: Step) -> bool {
    match (r, step) {
        (Taken::More, Step::More(s)) => after == s,
        (Taken::Done, Step::Done(g)) => after.game == g,
        (Taken::Fail(e), Step::Fail(f)) => e@ == f,
        (Taken::Tag(e), Step::Tag(f)) => e@ == f,
        _ => false,
    }
}

/// What stands between quotation marks.
pub open spec fn quoted(s: Seq<char>) -> Option<Seq<char>> {
    if s.len() >= 2 && s[0] == '"' && s.last() == '"' {
        Some(s.subrange(1, s.len() - 1))
    } else {
        None
    }
}

/// What comes of a tag.
pub open spec fn tag_step(d: Sketch, s: Seq<char>) -> Step {
    let i = text::find(s, text::space(), 0);
    let name = s.take(i);
    if d.game.plies.len() > 0 {
        Step::Tag(error::bad("new PGN tags before game result"@))
    } else if i >= s.len() {
        Step::Fail(error::bad("invalid PGN tag"@))
    } else {
        match quoted(text::trim(s.skip(i))) {
            None => Step::Fail(error::bad("invalid PGN tag value"@)),
            Some(value) => if name == "FEN"@ {
                Step::More(
                    Sketch { game: GameText { fen: Some(value), ..d.game }, seen: true, ..d },
                )
            } else if name == "Result"@ {
                match movetext::outcome_in(value) {
                    Some(result) => Step::More(
                        Sketch { game: GameText { result, ..d.game }, seen: true, ..d },
                    ),
                    None => Step::Fail(error::bad("invalid PGN result"@)),
                }
            } else {
                Step::More(Sketch { seen: true, ..d })
            },
        }
    }
}

/// The game with one more note, on the last move or before the first.
pub open spec fn noted(g: GameText, note: Rating) -> GameText {
    if g.plies.len() > 0 {
        let last = g.plies.last();
        GameText {
            plies: g.plies.drop_last().push(PlyText { notes: last.notes.push(note), ..last }),
            ..g
        }
    } else {
        GameText { initial_notes: g.initial_notes.push(note), ..g }
    }
}

/// What comes of a comment.
pub open spec fn comment_step(d: Sketch, s: Seq<char>) -> Step {
    match movetext::rating(s) {
        Rating::Missing => Step::More(d),
        note => Step::More(Sketch { game: noted(d.game, note), ..d }),
    }
}

/// The predicate of being no digit.
pub open spec fn no_digit() -> spec_fn(char) -> bool {
    |c: char| !('0' <= c && c <= '9')
}

/// A word of the move text without the number of the move.
pub open spec fn unnumbered(s: Seq<char>) -> Seq<char> {
    let i = text::find(s, no_digit(), 0);
    if i < s.len() && s[i] == '.' {
        s.skip(text::find(s, text::except('.'), i))
    } else {
        s
    }
}

/// Whether a word is an annotation that says nothing about the moves.
pub open spec fn idle(s: Seq<char>) -> bool {
    ||| s.len() > 0 && s[0] == '$'
    ||| s == "e.p."@
    ||| forall|i: int|
        0 <= i < s.len() ==> (#[trigger] s[i] == '.' || s[i] == '!' || s[i] == '?')
}

/// What comes of a word that is not a result.
pub open spec fn move_step(d: Sketch, s: Seq<char>) -> Step {
    let plies = d.game.plies;
    if idle(s) {
        Step::More(d)
    } else if s[0] == '@' {
        if plies.len() == 0 {
            Step::Fail(error::bad("duck placement without a move"@))
        } else if plies.last().text.contains('@') {
            Step::Fail(error::bad("duplicate duck placement"@))
        } else {
            match movetext::longer(plies.last().text, s) {
                None => Step::Fail(movetext::bad_ply()),
                Some(text) => limited(
                    Sketch {
                        game: GameText {
                            plies: plies.drop_last().push(PlyText { text, ..plies.last() }),
                            ..d.game
                        },
                        ..d
                    },
                ),
            }
        }
    } else {
        match movetext::longer(seq![], s) {
            None => Step::Fail(movetext::bad_ply()),
            Some(text) => limited(
                Sketch {
                    game: GameText { plies: plies.push(PlyText { text, notes: seq![] }), ..d.game },
                    seen: true,
                    ..d
                },
            ),
        }
    }
}

/// What comes of a word that was added to the moves.
pub open spec fn limited(d: Sketch) -> Step {
    if d.game.plies.len() > MAX_PLIES {
        Step::Fail(error::bad("PGN game exceeds 100000 plies"@))
    } else {
        Step::More(d)
    }
}

/// What comes of a word.
pub open spec fn word_step(d: Sketch, s: Seq<char>) -> Step {
    if pgn::is_ending(s) {
        let result = movetext::outcome_in(s)->0;
        if d.game.result is Some && d.game.result != result {
            Step::Fail(error::bad("PGN header and movetext results disagree"@))
        } else {
            Step::Done(GameText { result, ..d.game })
        }
    } else {
        move_step(d, unnumbered(s))
    }
}

/// What a token says, without byte order marks before it.
pub open spec fn plain(bytes: Seq<u8>) -> Seq<char> {
    let s = vstd::utf8::decode_utf8(bytes);
    s.skip(text::find(s, text::except('\u{feff}'), 0))
}

/// What comes of a token. Variations are skipped.
pub open spec fn token_step(d: Sketch, kind: Token, bytes: Seq<u8>) -> Step {
    if kind == Token::Open {
        Step::More(Sketch { depth: d.depth + 1, ..d })
    } else if kind == Token::Close {
        if d.depth == 0 {
            Step::Fail(error::bad("unmatched PGN variation close"@))
        } else {
            Step::More(Sketch { depth: d.depth - 1, ..d })
        }
    } else if d.depth != 0 {
        Step::More(d)
    } else if !vstd::utf8::valid_utf8(bytes) {
        Step::Fail(error::bad(text::utf8_message(bytes)))
    } else if plain(bytes).len() == 0 {
        Step::More(d)
    } else if kind == Token::Tag {
        tag_step(d, plain(bytes))
    } else if kind == Token::Comment {
        comment_step(d, plain(bytes))
    } else {
        word_step(d, plain(bytes))
    }
}

/// What stands between quotation marks.
fn unquote(s: &[char]) -> (r: Option<String>)
    ensures
        match (r, quoted(s@)) {
            (Some(a), Some(b)) => a@ == b,
            (None, None) => true,
            _ => false,
        },
{
    if s.len() >= 2 && s[0] == '"' && s[s.len() - 1] == '"' {
        Some(text::text_of(text::cut(s, 1, s.len() - 1).as_slice()))
    } else {
        None
    }
}

/// A word of the move text without the number of the move.
fn without_number(s: &[char]) -> (r: Vec<char>)
    ensures
        r@ == unnumbered(s@),
{
    let mut i: usize = 0;
    while i < s.len() && '0' <= s[i] && s[i] <= '9'
        invariant
            i <= s@.len(),
            text::find(s@, no_digit(), 0) == text::find(s@, no_digit(), i as int),
        decreases s@.len() - i,
    {
        i += 1;
    }
    if i < s.len() && s[i] == '.' {
        let j = text::find_other(s, '.', i);
        assert(s@.skip(j as int) =~= s@.subrange(j as int, s@.len() as int));
        text::cut(s, j, s.len())
    } else {
        assert(s@ =~= s@.subrange(0, s@.len() as int));
        text::cut(s, 0, s.len())
    }
}

/// Whether a word is an annotation that says nothing about the moves.
fn is_idle(s: &[char]) -> (r: bool)
    ensures
        r == idle(s@),
{
    if s.len() > 0 && s[0] == '$' {
        return true;
    }
    if text::is_word(s, "e.p.") {
        return true;
    }
    let mut i: usize = 0;
    while i < s.len()
        invariant
            i <= s@.len(),
            s@.len() > 0 ==> s@[0] != '$',
            s@ != "e.p."@,
            forall|j: int|
                0 <= j < i ==> (#[trigger] s@[j] == '.' || s@[j] == '!' || s@[j] == '?'),
        decreases s@.len() - i,
    {
        if s[i] != '.' && s[i] != '!' && s[i] != '?' {
            return false;
        }
        i += 1;
    }
    true
}

/// Whether `c` is in the text `s`.
fn contains(s: &str, c: char) -> (r: bool)
    ensures
        r == s@.contains(c),
{
    let v = text::chars_of(s);
    let i = text::find_char(v.as_slice(), c, 0);
    proof {
        text::lemma_find(s@, text::only(c), 0);
        assert(i < s@.len() ==> s@[i as int] == c);
    }
    i < v.len()
}

impl Draft {
    /// A game of which nothing has been read.
    pub fn new() -> (r: Draft)
        ensures
            r@ == blank_sketch(),
    {
        let game = Game {
            fen: None,
            result: None,
            initial_notes: Vec::new(),
            plies: Vec::new(),
        };
        let r = Draft { game, depth: 0, seen: false };
        assert(r@ =~~= blank_sketch());
        r
    }

    /// Takes a tag.
    fn take_tag(&mut self, s: &[char]) -> (r: Taken)
        ensures
            follows(r, final(self)@, tag_step(old(self)@, s@)),
    {
        if self.game.plies.len() > 0 {
            return Taken::Tag(invalid("new PGN tags before game result"));
        }
        let i = text::find_space(s, 0, false);
        if i >= s.len() {
            return Taken::Fail(invalid("invalid PGN tag"));
        }
        let name = text::cut(s, 0, i);
        assert(name@ =~= s@.take(i as int));
        let tail = text::cut(s, i, s.len());
        assert(tail@ =~= s@.skip(i as int));
        let value = match unquote(text::trimmed(tail.as_slice()).as_slice()) {
            Some(value) => value,
            None => {
                return Taken::Fail(invalid("invalid PGN tag value"));
            },
        };
        self.seen = true;
        if text::is_word(name.as_slice(), "FEN") {
            self.game.fen = Some(value);
        } else if text::is_word(name.as_slice(), "Result") {
            match outcome(value.as_str()) {
                Ok(result) => {
                    self.game.result = result;
                },
                Err(e) => {
                    return Taken::Fail(e);
                },
            }
        }
        Taken::More
    }

    /// Takes a comment.
    fn take_comment(&mut self, s: &[char]) -> (r: Taken)
        ensures
            follows(r, final(self)@, comment_step(old(self)@, s@)),
    {
        let note = evaluation(text::text_of(s).as_str());
        if let Evaluation::Missing = note {
            return Taken::More;
        }
        let ghost plies = self.game.plies@;
        match self.game.plies.pop() {
            Some(mut ply) => {
                let ghost notes = ply.notes@;
                ply.notes.push(note);
                assert(movetext::ratings(ply.notes@) =~= movetext::ratings(notes).push(note@));
                self.game.plies.push(ply);
                assert(movetext::ply_texts(plies).last() == plies.last()@);
                assert(self@.game =~~= noted(old(self)@.game, note@));
            },
            None => {
                let ghost notes = self.game.initial_notes@;
                self.game.initial_notes.push(note);
                assert(movetext::ratings(self.game.initial_notes@) =~= movetext::ratings(
                    notes,
                ).push(note@));
            },
        }
        Taken::More
    }

    /// Takes a word that is not a result, without the number of the move.
    fn take_move(&mut self, s: &[char]) -> (r: Taken)
        ensures
            follows(r, final(self)@, move_step(old(self)@, s@)),
    {
        if is_idle(s) {
            return Taken::More;
        }
        assert(s@.len() > 0);
        let ghost plies = self.game.plies@;
        let said = text::text_of(s);
        if s[0] == '@' {
            match self.game.plies.pop() {
                None => {
                    return Taken::Fail(invalid("duck placement without a move"));
                },
                Some(mut ply) => {
                    assert(movetext::ply_texts(plies).last() == plies.last()@);
                    if contains(ply.text(), '@') {
                        return Taken::Fail(invalid("duplicate duck placement"));
                    }
                    match ply.append(said.as_str()) {
                        Ok(()) => {},
                        Err(e) => {
                            return Taken::Fail(e);
                        },
                    }
                    self.game.plies.push(ply);
                    assert(movetext::ply_texts(self.game.plies@) =~= movetext::ply_texts(
                        plies,
                    ).drop_last().push(ply@));
                },
            }
        } else {
            let ply = match Ply::new(said.as_str()) {
                Ok(ply) => ply,
                Err(e) => {
                    return Taken::Fail(e);
                },
            };
            self.seen = true;
            self.game.plies.push(ply);
            assert(movetext::ply_texts(self.game.plies@) =~= movetext::ply_texts(plies).push(ply@));
        }
        if self.game.plies.len() > MAX_PLIES {
            return Taken::Fail(invalid("PGN game exceeds 100000 plies"));
        }
        Taken::More
    }

    /// Takes a word.
    fn take_word(&mut self, s: &[char]) -> (r: Taken)
        ensures
            follows(r, final(self)@, word_step(old(self)@, s@)),
    {
        if is_result(s) {
            let result = match outcome(text::text_of(s).as_str()) {
                Ok(result) => result,
                Err(e) => {
                    return Taken::Fail(e);
                },
            };
            if self.game.result.is_some() && !same_result(self.game.result, result) {
                return Taken::Fail(invalid("PGN header and movetext results disagree"));
            }
            self.game.result = result;
            return Taken::Done;
        }
        let plain = without_number(s);
        self.take_move(plain.as_slice())
    }

    /// Takes a token of a game.
    pub fn take(&mut self, kind: Token, bytes: &[u8]) -> (r: Taken)
        requires
            kind == Token::Open ==> old(self)@.depth < usize::MAX,
        ensures
            follows(r, final(self)@, token_step(old(self)@, kind, bytes@)),
    {
        if kind == Token::Open {
            self.depth = self.depth + 1;
            return Taken::More;
        }
        if kind == Token::Close {
            if self.depth == 0 {
                return Taken::Fail(invalid("unmatched PGN variation close"));
            }
            self.depth = self.depth - 1;
            return Taken::More;
        }
        if self.depth != 0 {
            return Taken::More;
        }
        let said = match text::from_utf8(bytes) {
            Ok(said) => said,
            Err(m) => {
                return Taken::Fail(invalid_text(m));
            },
        };
        let chars = text::chars_of(said.as_str());
        let i = text::find_other(chars.as_slice(), '\u{feff}', 0);
        let s = text::cut(chars.as_slice(), i, chars.len());
        assert(s@ =~= plain(bytes@));
        if s.len() == 0 {
            return Taken::More;
        }
        if kind == Token::Tag {
            self.take_tag(s.as_slice())
        } else if kind == Token::Comment {
            self.take_comment(s.as_slice())
        } else {
            self.take_word(s.as_slice())
        }
    }
}

/// Whether two results are the same.
fn same_result(a: Option<GameOutcome>, b: Option<GameOutcome>) -> (r: bool)
    ensures
        r == (a == b),
{
    match (a, b) {
        (Some(x), Some(y)) => x == y,
        (None, None) => true,
        _ => false,
    }
}

/// A game of which nothing has been read.
pub open spec fn blank_sketch() -> Sketch {
    Sketch {
        game: GameText { fen: None, result: None, initial_notes: seq![], plies: seq![] },
        depth: 0,
        seen: false,
    }
}

/// What a game comes to at the end of the input.
pub open spec fn ended(d: Sketch) -> Result<Option<GameText>, (ErrorKind, Seq<char>)> {
    if d.depth != 0 {
        Err(error::bad("unterminated PGN variation"@))
    } else if !d.seen {
        Ok(None)
    } else if d.game.result is Some {
        Ok(Some(d.game))
    } else {
        Err(error::bad("PGN game has no completed result"@))
    }
}

/// The game that comes of the draft `d` and the tokens that `r` reads, `None` if there is none, and
/// the reader after it.
pub open spec fn game_from(r: Reader, d: Sketch) -> (
    Result<Option<GameText>, (ErrorKind, Seq<char>)>,
    Reader,
)
    decreases
            r.rest.len(),
            if r.pending {
                1int
            } else {
                0
            },
    via game_decreases
{
    let n = r.next();
    match r.kind() {
        Err(e) => (Err(e), n),
        Ok(None) => (ended(d), n),
        Ok(Some(kind)) => match token_step(d, kind, n.token) {
            Step::More(next) => game_from(n, next),
            Step::Done(game) => (Ok(Some(game)), n),
            Step::Fail(e) => (Err(e), n),
            Step::Tag(e) => (Err(e), Reader { pending: true, ..n }),
        },
    }
}

#[via_fn]
proof fn game_decreases(r: Reader, d: Sketch) {
    if !r.pending && (r.kind() matches Ok(Some(_))) {
        pgn::lemma_token_uses_input(r);
    }
}

/// Whether `r` is the game that `s` describes.
pub open spec fn same_game(
    r: Result<Option<Game>, Error>,
    s: Result<Option<GameText>, (ErrorKind, Seq<char>)>,
) -> bool {
    match (r, s) {
        (Ok(Some(g)), Ok(Some(h))) => g@ == h,
        (Ok(None), Ok(None)) => true,
        (Err(e), Err(f)) => e@ == f,
        _ => false,
    }
}

impl Draft {
    /// What the game comes to at the end of the input.
    pub fn finish(self) -> (r: Result<Option<Game>, Error>)
        ensures
            same_game(r, ended(self@)),
    {
        if self.depth != 0 {
            Err(invalid("unterminated PGN variation"))
        } else if !self.seen {
            Ok(None)
        } else if self.game.result.is_some() {
            Ok(Some(self.game))
        } else {
            Err(invalid("PGN game has no completed result"))
        }
    }
}

impl Pgn {
    /// Reads a game: its tags and its main line. `None` says that there is no further game.
    pub fn game(&mut self) -> (r: Result<Option<Game>, Error>)
        requires
            old(self).wf(),
        ensures
            final(self).wf(),
            final(self).source() == old(self).source(),
            same_game(r, game_from(old(self)@, blank_sketch()).0),
            final(self)@ == game_from(old(self)@, blank_sketch()).1,
    {
        let mut draft = Draft::new();
        let limit = self.remaining();
        loop
            invariant
                self.wf(),
                self.source() == old(self).source(),
                game_from(old(self)@, blank_sketch()) == game_from(self@, draft@),
                draft@.depth + self@.rest.len() <= limit,
                draft@.depth > 0 ==> !self@.pending,
            decreases
                    self@.rest.len(),
                    if self@.pending {
                        1int
                    } else {
                        0
                    },
        {
            let ghost before = self@;
            proof {
                if !before.pending && (before.kind() matches Ok(Some(_))) {
                    pgn::lemma_token_uses_input(before);
                }
            }
            let kind = match self.token() {
                Ok(Some(kind)) => kind,
                Ok(None) => {
                    return draft.finish();
                },
                Err(e) => {
                    return Err(e);
                },
            };
            match draft.take(kind, self.said()) {
                Taken::More => {},
                Taken::Done => {
                    return Ok(Some(draft.game));
                },
                Taken::Fail(e) => {
                    return Err(e);
                },
                Taken::Tag(e) => {
                    self.repeat_tag();
                    return Err(e);
                },
            }
        }
    }
}

/// A game that was read stays the same whatever input follows.
pub proof fn law_game_is_final(r: Reader, d: Sketch, more: Seq<u8>, open: bool)
    requires
        r.open,
        game_from(r, d).0 != Err::<Option<GameText>, (ErrorKind, Seq<char>)>(pgn::starved()),
    ensures
        ({
            let longer = Reader { rest: r.rest + more, open, ..r };
            let after = game_from(r, d).1;
            &&& game_from(longer, d).0 == game_from(r, d).0
            &&& game_from(longer, d).1 == (Reader { rest: after.rest + more, open, ..after })
        }),
    decreases
            r.rest.len(),
            if r.pending {
                1int
            } else {
                0
            },
{
    pgn::law_token_is_final(r, more, open);
    if r.kind() is Ok {
        if !r.pending {
            pgn::lemma_token_uses_input(r);
        }
        let n = r.next();
        match token_step(d, r.kind()->Ok_0->0, n.token) {
            Step::More(next) => {
                law_game_is_final(n, next, more, open);
            },
            _ => {},
        }
    }
}

/// Whether the texts of moves are as they can be read.
pub open spec fn plies_fit(plies: Seq<PlyText>) -> bool {
    &&& plies.len() <= MAX_PLIES
    &&& forall|i: int|
        0 <= i < plies.len() ==> {
            &&& 0 < (#[trigger] plies[i]).text.len() <= movetext::MAX_PLY_TEXT
            &&& movetext::ascii(plies[i].text)
        }
}

/// A token leaves the texts of the moves as they can be read.
proof fn lemma_step_fits(d: Sketch, kind: Token, bytes: Seq<u8>)
    requires
        plies_fit(d.game.plies),
    ensures
        match token_step(d, kind, bytes) {
            Step::More(next) => plies_fit(next.game.plies),
            Step::Done(game) => plies_fit(game.plies) && game.result == movetext::outcome_in(
                plain(bytes),
            )->0,
            _ => true,
        },
{
    let plies = d.game.plies;
    if plies.len() > 0 {
        assert(plies.last() == plies[plies.len() - 1]);
    }
}

/// Every move of a game that was read is written in ASCII and has no more than 32 characters, and
/// there are no more than 100000 of them.
pub proof fn law_read_games_fit(r: Reader, d: Sketch)
    requires
        plies_fit(d.game.plies),
    ensures
        game_from(r, d).0 matches Ok(Some(g)) ==> plies_fit(g.plies),
    decreases
            r.rest.len(),
            if r.pending {
                1int
            } else {
                0
            },
{
    if r.kind() matches Ok(Some(_)) {
        if !r.pending {
            pgn::lemma_token_uses_input(r);
        }
        let kind = r.kind()->Ok_0->0;
        lemma_step_fits(d, kind, r.next().token);
        match token_step(d, kind, r.next().token) {
            Step::More(next) => {
                law_read_games_fit(r.next(), next);
            },
            _ => {},
        }
    }
}

/// What stands in a variation does not count.
pub proof fn law_variations_are_skipped(d: Sketch, kind: Token, bytes: Seq<u8>)
    requires
        d.depth > 0,
    ensures
        token_step(d, kind, bytes) matches Step::More(next) && next.game == d.game && next.seen
            == d.seen,
{
}

/// How much a reader has before it: its input, and a tag that comes once more.
pub open spec fn ahead(r: Reader) -> int {
    2 * r.rest.len() + if r.pending {
        1int
    } else {
        0
    }
}

/// Reading a game brings a reader further, unless the input is at its end or goes on where it has
/// not been read yet.
pub proof fn law_game_advances(r: Reader, d: Sketch)
    requires
        r.pending ==> d.game.plies.len() == 0,
    ensures
        ({
            let (game, after) = game_from(r, d);
            ||| ahead(after) < ahead(r)
            ||| game == Err::<Option<GameText>, (ErrorKind, Seq<char>)>(pgn::starved())
            ||| game == ended(d)
        }),
    decreases
            r.rest.len(),
            if r.pending {
                1int
            } else {
                0
            },
{
    if !r.pending && r.kind() != Ok::<Option<Token>, (ErrorKind, Seq<char>)>(None) && r.kind()
        != Err::<Option<Token>, (ErrorKind, Seq<char>)>(pgn::starved()) {
        pgn::lemma_token_uses_input(r);
    }
    if r.kind() matches Ok(Some(_)) {
        let n = r.next();
        match token_step(d, r.kind()->Ok_0->0, n.token) {
            Step::More(next) => {
                law_game_advances(n, next);
                lemma_game_uses(n, next);
            },
            _ => {},
        }
    }
}

/// Reading a game does not bring a reader back.
proof fn lemma_game_uses(r: Reader, d: Sketch)
    ensures
        ahead(game_from(r, d).1) <= ahead(r),
    decreases
            r.rest.len(),
            if r.pending {
                1int
            } else {
                0
            },
{
    pgn::lemma_rest_shrinks(r);
    if r.kind() matches Ok(Some(_)) {
        if !r.pending {
            pgn::lemma_token_uses_input(r);
        }
        let n = r.next();
        match token_step(d, r.kind()->Ok_0->0, n.token) {
            Step::More(next) => {
                lemma_game_uses(n, next);
            },
            _ => {},
        }
    }
}

} // verus!
