//! Reading the games of a PGN file one after the other.
use crate::error::{Error, ErrorKind};
use crate::movetext::{Game, GameText};
use crate::pgn::{Pgn, Reader};
use crate::{draft, pgn, text};
use vstd::prelude::*;

verus! {

/// What comes next in a PGN file. Games are counted from 1.
pub enum Event {
    /// A game.
    Game(u64, Game),
    /// A game that was skipped, with what is wrong with it.
    Skipped(u64, String),
    /// Reading cannot go on.
    Fail(Error),
    /// More input is needed.
    More,
    /// There is nothing more.
    End,
}

/// The model of an `Event`.
pub enum Happening {
    Game(int, GameText),
    Skipped(int, Seq<char>),
    Fail((ErrorKind, Seq<char>)),
    More,
    End,
}

impl View for Event {
    type V = Happening;

    open spec fn view(&self) -> Happening {
        match self {
            Event::Game(i, g) => Happening::Game(*i as int, g@),
            Event::Skipped(i, m) => Happening::Skipped(*i as int, m@),
            Event::Fail(e) => Happening::Fail(e@),
            Event::More => Happening::More,
            Event::End => Happening::End,
        }
    }
}

/// A reader of the games of a PGN file.
pub struct GameReader {
    pgn: Pgn,
    index: u64,
    recovering: bool,
    skip_broken: bool,
}

/// The model of a `GameReader`.
pub struct Queue {
    /// What is before it.
    pub reader: Reader,
    /// How many games it has counted.
    pub index: int,
    /// Whether it still has to find the end of a game that it skips.
    pub recovering: bool,
    /// Whether it skips games that cannot be read.
    pub skip_broken: bool,
}

impl View for GameReader {
    type V = Queue;

    closed spec fn view(&self) -> Queue {
        Queue {
            reader: self.pgn@,
            index: self.index as int,
            recovering: self.recovering,
            skip_broken: self.skip_broken,
        }
    }
}

/// The words that say which game is read.
pub open spec fn place(q: Queue) -> Seq<char> {
    "game "@ + text::decimal((q.index + 1) as nat) + ": "@
}

/// What comes of the error `e` in place of the input that was asked for, and the reader after it.
pub open spec fn interrupted(q: Queue, e: (ErrorKind, Seq<char>)) -> (Happening, Queue) {
    if q.recovering {
        (Happening::Fail(e), q)
    } else if q.skip_broken && e.0 == ErrorKind::InvalidData {
        (
            Happening::Skipped(q.index + 1, e.1),
            Queue {
                reader: Reader { rest: seq![], pending: false, ..q.reader },
                index: q.index + 1,
                recovering: true,
                ..q
            },
        )
    } else {
        (Happening::Fail((e.0, place(q) + e.1)), q)
    }
}

/// What the next game comes to, and the reader after it.
pub open spec fn next_game(q: Queue) -> (Happening, Queue) {
    let (game, after) = draft::game_from(q.reader, draft::blank_sketch());
    let counted = Queue { reader: after, index: q.index + 1, ..q };
    match game {
        Ok(Some(g)) => (Happening::Game(q.index + 1, g), counted),
        Ok(None) => (Happening::End, Queue { reader: after, ..q }),
        Err(e) => if e.0 == ErrorKind::WouldBlock {
            (Happening::More, q)
        } else if q.skip_broken && e.0 == ErrorKind::InvalidData {
            (Happening::Skipped(q.index + 1, e.1), Queue { recovering: true, ..counted })
        } else {
            (Happening::Fail((e.0, place(q) + e.1)), Queue { reader: after, ..q })
        },
    }
}

/// What comes next, and the reader after it.
pub open spec fn next_event(q: Queue) -> (Happening, Queue) {
    if q.recovering {
        let (found, after) = pgn::recovered(q.reader);
        match found {
            Ok(true) => next_game(Queue { reader: after, recovering: false, ..q }),
            Ok(false) => (Happening::End, Queue { reader: after, ..q }),
            Err(e) => if e.0 == ErrorKind::WouldBlock {
                (Happening::More, q)
            } else {
                (Happening::Fail(e), Queue { reader: after, ..q })
            },
        }
    } else {
        next_game(q)
    }
}

impl GameReader {
    /// Whether the reader is in a state that it can be in.
    pub closed spec fn wf(&self) -> bool {
        self.pgn.wf()
    }

    /// A reader for input that begins with `input`. A byte order mark is skipped.
    pub fn new(input: Vec<u8>, skip_broken: bool) -> (r: GameReader)
        ensures
            r.wf(),
            r@.reader.rest == pgn::unmarked(input@),
            r@.reader.open,
            !r@.reader.pending,
            r@.index == 0,
            !r@.recovering,
            r@.skip_broken == skip_broken,
    {
        GameReader { pgn: Pgn::new(input), index: 0, recovering: false, skip_broken }
    }

    /// Adds input.
    pub fn feed(&mut self, more: &[u8])
        requires
            old(self).wf(),
        ensures
            final(self).wf(),
            final(self)@ == (Queue {
                reader: Reader { rest: old(self)@.reader.rest + more@, ..old(self)@.reader },
                ..old(self)@
            }),
    {
        self.pgn.feed(more);
    }

    /// Says that no input follows.
    pub fn close(&mut self)
        requires
            old(self).wf(),
        ensures
            final(self).wf(),
            final(self)@ == (Queue {
                reader: Reader { open: false, ..old(self)@.reader },
                ..old(self)@
            }),
    {
        self.pgn.close();
    }

    /// How many games were counted.
    pub fn count(&self) -> (n: u64)
        ensures
            n == self@.index,
    {
        self.index
    }

    /// The words that say which game is read.
    fn place(&self) -> (s: String)
        requires
            self@.index < u64::MAX,
        ensures
            s@ == place(self@),
    {
        let mut s = "game ".to_owned();
        text::push_decimal(&mut s, self.index + 1);
        s.append(": ");
        s
    }

    /// Takes the error `e` in place of the input that was asked for.
    pub fn interrupt(&mut self, e: Error) -> (r: Event)
        requires
            old(self).wf(),
            old(self)@.index < u64::MAX,
        ensures
            final(self).wf(),
            r@ == interrupted(old(self)@, e@).0,
            final(self)@ == interrupted(old(self)@, e@).1,
    {
        if self.recovering {
            Event::Fail(e)
        } else if self.skip_broken && e.kind == ErrorKind::InvalidData {
            self.pgn.drop_rest();
            self.index = self.index + 1;
            self.recovering = true;
            Event::Skipped(self.index, e.message)
        } else {
            Event::Fail(e.within(self.place().as_str()))
        }
    }

    /// Reads the next game.
    fn read(&mut self) -> (r: Event)
        requires
            old(self).wf(),
            old(self)@.index < u64::MAX,
        ensures
            final(self).wf(),
            r@ == next_game(old(self)@).0,
            final(self)@ == next_game(old(self)@).1,
    {
        let ghost at = self.pgn@;
        let mark = self.pgn.mark();
        match self.pgn.game() {
            Ok(Some(game)) => {
                self.index = self.index + 1;
                Event::Game(self.index, game)
            },
            Ok(None) => Event::End,
            Err(e) => match e.kind {
                ErrorKind::WouldBlock => {
                    proof {
                        lemma_reading_keeps_open(at, draft::blank_sketch());
                    }
                    self.pgn.go_back(mark, Ghost(at));
                    Event::More
                },
                kind => {
                    if self.skip_broken && kind == ErrorKind::InvalidData {
                        self.index = self.index + 1;
                        self.recovering = true;
                        Event::Skipped(self.index, e.message)
                    } else {
                        Event::Fail(e.within(self.place().as_str()))
                    }
                },
            },
        }
    }

    /// Reads on to the next game.
    pub fn next_event(&mut self) -> (r: Event)
        requires
            old(self).wf(),
            old(self)@.index < u64::MAX,
        ensures
            final(self).wf(),
            r@ == next_event(old(self)@).0,
            final(self)@ == next_event(old(self)@).1,
    {
        if self.recovering {
            let ghost at = self.pgn@;
            let mark = self.pgn.mark();
            match self.pgn.recover() {
                Ok(true) => {
                    self.recovering = false;
                },
                Ok(false) => {
                    return Event::End;
                },
                Err(e) => {
                    return match e.kind {
                        ErrorKind::WouldBlock => {
                            proof {
                                lemma_recovery_keeps_open(at);
                            }
                            self.pgn.go_back(mark, Ghost(at));
                            Event::More
                        },
                        _ => Event::Fail(e),
                    };
                },
            }
        }
        self.read()
    }
}

/// Reading a game does not end the input.
proof fn lemma_reading_keeps_open(r: Reader, d: draft::Sketch)
    ensures
        draft::game_from(r, d).1.open == r.open,
    decreases
            r.rest.len(),
            if r.pending {
                1int
            } else {
                0
            },
{
    if r.kind() matches Ok(Some(_)) {
        if !r.pending {
            pgn::lemma_token_uses_input(r);
        }
        match draft::token_step(d, r.kind()->Ok_0->0, r.next().token) {
            draft::Step::More(next) => {
                lemma_reading_keeps_open(r.next(), next);
            },
            _ => {},
        }
    }
}

/// Finding the end of a game does not end the input.
proof fn lemma_recovery_keeps_open(r: Reader)
    ensures
        pgn::recovered(r).1.open == r.open,
    decreases r.rest.len(),
{
    if !r.pending && (r.kind() matches Ok(Some(_))) {
        pgn::lemma_token_uses_input(r);
        lemma_recovery_keeps_open(r.next());
    }
}

/// The reader `q` when the input `more` is added.
pub open spec fn fed(q: Queue, more: Seq<u8>, open: bool) -> Queue {
    Queue { reader: Reader { rest: q.reader.rest + more, open, ..q.reader }, ..q }
}

/// How the input of a file is cut into pieces does not matter: what comes next stays the same
/// whatever input follows, and when more input is asked for, nothing has been lost.
pub proof fn law_event_is_final(q: Queue, more: Seq<u8>, open: bool)
    requires
        q.reader.open,
    ensures
        ({
            let (happening, after) = next_event(q);
            if happening == Happening::More {
                next_event(fed(q, more, open)) == next_event(fed(after, more, open))
            } else {
                next_event(fed(q, more, open)) == (happening, fed(after, more, open))
            }
        }),
{
    let blank = draft::blank_sketch();
    if q.recovering {
        let (found, after) = pgn::recovered(q.reader);
        if !(found matches Err(e) && e.0 == ErrorKind::WouldBlock) {
            pgn::law_recovery_is_final(q.reader, more, open);
        }
        if found == Ok::<bool, (ErrorKind, Seq<char>)>(true) {
            lemma_recovery_keeps_open(q.reader);
            if next_event(q).0 != Happening::More {
                draft::law_game_is_final(after, blank, more, open);
            }
        }
    } else if next_event(q).0 != Happening::More {
        draft::law_game_is_final(q.reader, blank, more, open);
    }
}

/// Finding the end of a game does not bring a reader back.
proof fn lemma_recovery_uses(r: Reader)
    ensures
        draft::ahead(pgn::recovered(r).1) <= draft::ahead(r),
    decreases r.rest.len(),
{
    if !r.pending {
        pgn::lemma_rest_shrinks(r);
        if r.kind() matches Ok(Some(_)) {
            pgn::lemma_token_uses_input(r);
            lemma_recovery_uses(r.next());
        }
    }
}

/// Every game that is read or skipped brings the reader further, so reading ends.
pub proof fn law_reading_ends(q: Queue)
    requires
        next_event(q).0 is Game || next_event(q).0 is Skipped,
    ensures
        draft::ahead(next_event(q).1.reader) < draft::ahead(q.reader),
        next_event(q).1.index == q.index + 1,
{
    let blank = draft::blank_sketch();
    assert(draft::ended(blank) == Ok::<Option<GameText>, (ErrorKind, Seq<char>)>(None));
    if q.recovering {
        lemma_recovery_uses(q.reader);
        draft::law_game_advances(pgn::recovered(q.reader).1, blank);
    } else {
        draft::law_game_advances(q.reader, blank);
    }
}

/// Games are numbered one after the other, whether they are read or skipped. A broken game is
/// skipped only where that is wanted, and the search for the next game then begins; a game that was
/// read ends the search. Where broken games are not skipped, the failure names the game.
pub proof fn law_games_are_numbered(q: Queue)
    ensures
        ({
            let (happening, after) = next_event(q);
            &&& after.skip_broken == q.skip_broken
            &&& match happening {
                Happening::Game(n, _) => n == q.index + 1 && after.index == n && !after.recovering,
                Happening::Skipped(n, _) => {
                    &&& q.skip_broken
                    &&& n == q.index + 1
                    &&& after.index == n
                    &&& after.recovering
                },
                Happening::Fail(e) => {
                    &&& after.index == q.index
                    &&& !q.recovering ==> text::starts(
                        e.1,
                        "game "@ + text::decimal((q.index + 1) as nat) + ": "@,
                    )
                    &&& !q.recovering && q.skip_broken ==> e.0 != ErrorKind::InvalidData
                },
                _ => after.index == q.index,
            }
        }),
{
    let (happening, after) = next_event(q);
    match happening {
        Happening::Fail(e) => {
            if !q.recovering {
                let a = "game "@ + text::decimal((q.index + 1) as nat) + ": "@;
                let (game, _) = draft::game_from(q.reader, draft::blank_sketch());
                assert(e.1 == a + game->Err_0.1);
                assert(e.1.take(a.len() as int) =~= a);
            }
        },
        _ => {},
    }
}

/// Where the input itself is broken, the game is skipped if that is wanted and no search is going
/// on: it is counted, the rest of the input is given up and the search for the next game begins.
/// Otherwise nothing changes, and the failure is told, with the number of the game unless a search
/// is going on.
pub proof fn law_broken_input(q: Queue, e: (ErrorKind, Seq<char>))
    ensures
        ({
            let (happening, after) = interrupted(q, e);
            if q.skip_broken && !q.recovering && e.0 == ErrorKind::InvalidData {
                &&& happening == Happening::Skipped(q.index + 1, e.1)
                &&& after.index == q.index + 1
                &&& after.recovering
                &&& after.skip_broken
                &&& after.reader.rest.len() == 0
                &&& !after.reader.pending
                &&& after.reader.open == q.reader.open
            } else {
                &&& after == q
                &&& happening == Happening::Fail(
                    (
                        e.0,
                        if q.recovering {
                            e.1
                        } else {
                            "game "@ + text::decimal((q.index + 1) as nat) + ": "@ + e.1
                        },
                    ),
                )
            }
        }),
{
}

} // verus!
