//! Reading PGN: tokens and the ends of games.
use crate::error::{invalid, Error, ErrorKind};
use crate::{error, text};
use vstd::prelude::*;
use vstd::slice::slice_subrange;

verus! {

/// The most bytes that a tag or a comment may have.
pub const MAX_TOKEN: usize = 1048576;

/// The most bytes that a word of the move text may have.
pub const MAX_WORD: usize = 4096;

/// What a token is.
#[derive(Clone, Copy, Debug, PartialEq, Eq, Structural)]
pub enum Token {
    /// A tag, such as `[Result "1-0"]`.
    Tag,
    /// A comment, in braces or to the end of the line.
    Comment,
    /// The beginning of a variation.
    Open,
    /// The end of a variation.
    Close,
    /// A word of the move text.
    Word,
}

/// What ends a piece of text.
#[derive(Clone, Copy, Debug, PartialEq, Eq, Structural)]
enum Stop {
    Brace,
    Line,
    Word,
}

/// Whether a byte is white space.
pub open spec fn blank(b: u8) -> bool {
    b == 9 || b == 10 || b == 12 || b == 13 || b == 32
}

/// The predicate of being no white space.
pub open spec fn solid() -> spec_fn(u8) -> bool {
    |b: u8| !blank(b)
}

/// The predicate of ending a line.
pub open spec fn line_end() -> spec_fn(u8) -> bool {
    |b: u8| b == 10 || b == 13
}

/// The predicate of ending a word: white space and the characters `[`, `{`, `}`, `(`, `)`, `;` and
/// `$`.
pub open spec fn word_end() -> spec_fn(u8) -> bool {
    |b: u8|
        blank(b) || b == 0x5b || b == 0x7b || b == 0x7d || b == 0x28 || b == 0x29 || b == 0x3b || b
            == 0x24
}

/// Where the `]` of a tag stands that is not quoted, from index `i` on, or the length of `s`. A
/// quotation mark after a backslash does not count, and neither does a backslash after one.
pub open spec fn tag_end(s: Seq<u8>, i: int, quoted: bool, escaped: bool) -> int
    decreases s.len() - i,
{
    if i >= s.len() {
        s.len() as int
    } else {
        let now = if s[i] == 0x22 && !escaped {
            !quoted
        } else {
            quoted
        };
        if s[i] == 0x5d && !now {
            i
        } else {
            tag_end(s, i + 1, now, s[i] == 0x5c && !escaped)
        }
    }
}

/// The error for input that goes on where it has not been read yet.
pub open spec fn starved() -> (ErrorKind, Seq<char>) {
    (ErrorKind::WouldBlock, "more input is needed"@)
}

/// What the beginning of some input is.
pub struct Lexed {
    /// The token, `None` at the end of the input.
    pub kind: Result<Option<Token>, (ErrorKind, Seq<char>)>,
    /// What the token says.
    pub text: Seq<u8>,
    /// The input that follows.
    pub rest: Seq<u8>,
}

/// What comes of a token that has begun with `start` and goes on to index `e` of `s`. Where it gets
/// longer than `limit`, it is broken off.
pub open spec fn delimited(
    start: Seq<u8>,
    s: Seq<u8>,
    e: int,
    after: int,
    limit: int,
    kind: Token,
    long: Seq<char>,
    end: Result<Option<Token>, (ErrorKind, Seq<char>)>,
) -> Lexed {
    let room = limit + 1 - start.len();
    if e >= room {
        Lexed { kind: Err(error::bad(long)), text: start + s.take(room), rest: s.skip(room) }
    } else if e >= s.len() {
        Lexed { kind: end, text: start + s, rest: seq![] }
    } else {
        Lexed { kind: Ok(Some(kind)), text: start + s.take(e), rest: s.skip(e + after) }
    }
}

/// What the input `s` begins with. While it is `open`, more may follow.
pub open spec fn lex(s: Seq<u8>, open: bool) -> Lexed {
    let none: Seq<u8> = seq![];
    let t = s.skip(text::find(s, solid(), 0));
    let u = t.skip(1);
    let broken = if open {
        Err(starved())
    } else {
        Err(error::bad("unterminated PGN tag or comment"@))
    };
    if t.len() == 0 {
        Lexed {
            kind: if open {
                Err(starved())
            } else {
                Ok(None)
            },
            text: none,
            rest: none,
        }
    } else if t[0] == 0x28 {
        Lexed { kind: Ok(Some(Token::Open)), text: none, rest: u }
    } else if t[0] == 0x29 {
        Lexed { kind: Ok(Some(Token::Close)), text: none, rest: u }
    } else if t[0] == 0x5b {
        delimited(
            none,
            u,
            tag_end(u, 0, false, false),
            1,
            MAX_TOKEN as int,
            Token::Tag,
            "PGN token exceeds 1 MiB"@,
            broken,
        )
    } else if t[0] == 0x7b {
        delimited(
            none,
            u,
            text::find(u, text::only(0x7du8), 0),
            1,
            MAX_TOKEN as int,
            Token::Comment,
            "PGN token exceeds 1 MiB"@,
            broken,
        )
    } else if t[0] == 0x3b || t[0] == 0x25 {
        delimited(
            none,
            u,
            text::find(u, line_end(), 0),
            1,
            MAX_TOKEN as int,
            Token::Comment,
            "PGN comment exceeds 1 MiB"@,
            if open {
                Err(starved())
            } else {
                Ok(Some(Token::Comment))
            },
        )
    } else {
        delimited(
            seq![t[0]],
            u,
            text::find(u, word_end(), 0),
            0,
            MAX_WORD as int,
            Token::Word,
            "PGN move token exceeds 4096 bytes"@,
            if open {
                Err(starved())
            } else {
                Ok(Some(Token::Word))
            },
        )
    }
}

/// What a PGN reader has before it.
#[verifier::ext_equal]
pub struct Reader {
    /// The input that has not been used.
    pub rest: Seq<u8>,
    /// Whether more input may follow.
    pub open: bool,
    /// What the last token says.
    pub token: Seq<u8>,
    /// Whether the last token, a tag, comes once more.
    pub pending: bool,
}

impl Reader {
    /// What kind of token comes next.
    pub open spec fn kind(self) -> Result<Option<Token>, (ErrorKind, Seq<char>)> {
        if self.pending {
            Ok(Some(Token::Tag))
        } else {
            lex(self.rest, self.open).kind
        }
    }

    /// The reader after the next token.
    pub open spec fn next(self) -> Reader {
        if self.pending {
            Reader { pending: false, ..self }
        } else {
            let lexed = lex(self.rest, self.open);
            Reader { rest: lexed.rest, token: lexed.text, ..self }
        }
    }
}

/// A reader of PGN. It is given its input in pieces.
pub struct Pgn {
    input: Vec<u8>,
    pos: usize,
    open: bool,
    token: Vec<u8>,
    pending_tag: bool,
}

impl View for Pgn {
    type V = Reader;

    closed spec fn view(&self) -> Reader {
        Reader {
            rest: self.input@.skip(self.pos as int),
            open: self.open,
            token: self.token@,
            pending: self.pending_tag,
        }
    }
}

/// How a search for the end of a token ended.
#[derive(Clone, Copy, Debug, PartialEq, Eq, Structural)]
enum Reach {
    Stop,
    End,
    Limit,
}

impl Stop {
    spec fn ends(self) -> spec_fn(u8) -> bool {
        match self {
            Stop::Brace => text::only(0x7du8),
            Stop::Line => line_end(),
            Stop::Word => word_end(),
        }
    }

    fn is(self, b: u8) -> (r: bool)
        ensures
            r == self.ends()(b),
    {
        match self {
            Stop::Brace => b == 0x7d,
            Stop::Line => b == 10 || b == 13,
            Stop::Word => is_blank(b) || b == 0x5b || b == 0x7b || b == 0x7d || b == 0x28 || b
                == 0x29 || b == 0x3b || b == 0x24,
        }
    }
}

/// Whether a byte is white space.
fn is_blank(b: u8) -> (r: bool)
    ensures
        r == blank(b),
{
    b == 9 || b == 10 || b == 12 || b == 13 || b == 32
}

/// The error for input that goes on where it has not been read yet.
fn starving() -> (e: Error)
    ensures
        e@ == starved(),
{
    Error { kind: ErrorKind::WouldBlock, message: "more input is needed".to_owned() }
}

impl Pgn {
    /// Whether the reader is in a state that it can be in.
    pub closed spec fn wf(&self) -> bool {
        self.pos <= self.input@.len()
    }

    /// All input that is still held, used or not.
    pub closed spec fn source(&self) -> Seq<u8> {
        self.input@
    }

    /// The next byte, `None` at the end of the input.
    pub fn peek(&self) -> (r: Result<Option<u8>, Error>)
        requires
            self.wf(),
        ensures
            error::agrees(
                r,
                if self@.rest.len() > 0 {
                    Ok(Some(self@.rest[0]))
                } else if self@.open {
                    Err(starved())
                } else {
                    Ok(None)
                },
            ),
    {
        if self.pos < self.input.len() {
            Ok(Some(self.input[self.pos]))
        } else if self.open {
            Err(starving())
        } else {
            Ok(None)
        }
    }

    /// Uses one byte of the input.
    fn consume(&mut self)
        requires
            old(self).wf(),
            old(self)@.rest.len() > 0,
        ensures
            final(self).wf(),
            final(self).source() == old(self).source(),
            final(self)@ == (Reader { rest: old(self)@.rest.skip(1), ..old(self)@ }),
    {
        if self.pos < self.input.len() {
            self.pos = self.pos + 1;
        }
        assert(self@.rest =~= old(self)@.rest.skip(1));
    }

    /// Takes the next byte, `None` at the end of the input.
    pub fn byte(&mut self) -> (r: Result<Option<u8>, Error>)
        requires
            old(self).wf(),
        ensures
            final(self).wf(),
            final(self).source() == old(self).source(),
            error::agrees(
                r,
                if old(self)@.rest.len() > 0 {
                    Ok(Some(old(self)@.rest[0]))
                } else if old(self)@.open {
                    Err(starved())
                } else {
                    Ok(None)
                },
            ),
            final(self)@ == if old(self)@.rest.len() > 0 {
                Reader { rest: old(self)@.rest.skip(1), ..old(self)@ }
            } else {
                old(self)@
            },
    {
        let value = self.peek();
        if self.pos < self.input.len() {
            self.consume();
        }
        value
    }

    /// Moves bytes to the token, up to the first that `stop` names. With more than `limit` bytes
    /// in the token it gives up.
    fn until(&mut self, stop: Stop, limit: usize) -> (r: Reach)
        requires
            old(self).wf(),
            old(self)@.token.len() <= limit < usize::MAX,
        ensures
            final(self).wf(),
            final(self).source() == old(self).source(),
            ({
                let (s, t) = (old(self)@.rest, old(self)@.token);
                let e = text::find(s, stop.ends(), 0);
                let room = limit + 1 - t.len();
                if e >= room {
                    &&& r == Reach::Limit
                    &&& final(self)@ == (Reader {
                        rest: s.skip(room),
                        token: t + s.take(room),
                        ..old(self)@
                    })
                } else {
                    &&& r == if e < s.len() {
                        Reach::Stop
                    } else {
                        Reach::End
                    }
                    &&& final(self)@ == (Reader {
                        rest: s.skip(e),
                        token: t + s.take(e),
                        ..old(self)@
                    })
                    &&& 0 <= e <= s.len()
                }
            }),
    {
        let ghost s = self@.rest;
        let ghost t = self@.token;
        let ghost room = limit + 1 - t.len();
        let ghost mut n: int = 0;
        assert(s.skip(0) =~= s);
        assert(t + s.take(0) =~= t);
        while self.pos < self.input.len() && !stop.is(self.input[self.pos])
            invariant
                self.wf(),
                self.source() == old(self).source(),
                s == old(self)@.rest,
                t == old(self)@.token,
                0 <= n <= s.len(),
                n < room,
                room == limit + 1 - t.len(),
                limit < usize::MAX,
                text::find(s, stop.ends(), 0) == text::find(s, stop.ends(), n),
                self@ == (Reader { rest: s.skip(n), token: t + s.take(n), ..old(self)@ }),
            decreases self.input.len() - self.pos,
        {
            let b = self.input[self.pos];
            assert(self@.rest.len() > 0);
            assert(b == self@.rest[0]);
            self.consume();
            self.token.push(b);
            proof {
                n = n + 1;
                assert(s.skip(n) =~= s.skip(n - 1).skip(1));
                assert(t + s.take(n) =~= (t + s.take(n - 1)).push(b));
                text::lemma_find(s, stop.ends(), n);
            }
            if self.token.len() > limit {
                assert(n == room);
                return Reach::Limit;
            }
        }
        if self.pos < self.input.len() {
            assert(self@.rest.len() > 0);
            assert(self.input@[self.pos as int] == self@.rest[0]);
            assert(text::find(s, stop.ends(), n) == n);
            Reach::Stop
        } else {
            assert(self@.rest.len() == 0);
            Reach::End
        }
    }

    /// Moves the bytes of a tag to the token, up to the bracket that closes it.
    fn until_bracket(&mut self) -> (r: Reach)
        requires
            old(self).wf(),
            old(self)@.token.len() == 0,
        ensures
            final(self).wf(),
            final(self).source() == old(self).source(),
            ({
                let s = old(self)@.rest;
                let e = tag_end(s, 0, false, false);
                let room = MAX_TOKEN + 1;
                if e >= room {
                    &&& r == Reach::Limit
                    &&& final(self)@ == (Reader {
                        rest: s.skip(room),
                        token: s.take(room),
                        ..old(self)@
                    })
                } else {
                    &&& r == if e < s.len() {
                        Reach::Stop
                    } else {
                        Reach::End
                    }
                    &&& final(self)@ == (Reader { rest: s.skip(e), token: s.take(e), ..old(self)@ })
                    &&& 0 <= e <= s.len()
                }
            }),
    {
        let ghost s = self@.rest;
        let mut quoted = false;
        let mut escaped = false;
        let ghost mut n: int = 0;
        assert(s.skip(0) =~= s);
        assert(s.take(0) =~= self@.token);
        while self.pos < self.input.len()
            invariant
                self.wf(),
                self.source() == old(self).source(),
                s == old(self)@.rest,
                0 <= n <= s.len(),
                n <= MAX_TOKEN,
                tag_end(s, 0, false, false) == tag_end(s, n, quoted, escaped),
                self@ == (Reader { rest: s.skip(n), token: s.take(n), ..old(self)@ }),
            decreases self.input.len() - self.pos,
        {
            let b = self.input[self.pos];
            assert(self@.rest.len() > 0);
            assert(b == self@.rest[0]);
            assert(b == s[n]);
            if b == 0x22 && !escaped {
                quoted = !quoted;
            }
            if b == 0x5d && !quoted {
                return Reach::Stop;
            }
            escaped = b == 0x5c && !escaped;
            self.consume();
            self.token.push(b);
            proof {
                n = n + 1;
                assert(s.skip(n) =~= s.skip(n - 1).skip(1));
                assert(s.take(n) =~= s.take(n - 1).push(b));
                lemma_tag_end(s, n, quoted, escaped);
            }
            if self.token.len() > MAX_TOKEN {
                return Reach::Limit;
            }
        }
        assert(self@.rest.len() == 0);
        Reach::End
    }

    /// What comes of a token of kind `kind` whose end was searched for.
    fn ended(&mut self, reach: Reach, kind: Token, long: &str, broken: bool) -> (r: Result<
        Option<Token>,
        Error,
    >)
        requires
            old(self).wf(),
            reach == Reach::Stop ==> old(self)@.rest.len() > 0,
        ensures
            final(self).wf(),
            final(self).source() == old(self).source(),
            error::agrees(
                r,
                match reach {
                    Reach::Stop => Ok(Some(kind)),
                    Reach::Limit => Err(error::bad(long@)),
                    Reach::End => if old(self)@.open {
                        Err(starved())
                    } else if broken {
                        Err(error::bad("unterminated PGN tag or comment"@))
                    } else {
                        Ok(Some(kind))
                    },
                },
            ),
            final(self)@ == if reach == Reach::Stop && kind != Token::Word {
                Reader { rest: old(self)@.rest.skip(1), ..old(self)@ }
            } else {
                old(self)@
            },
    {
        match reach {
            Reach::Stop => {
                if kind != Token::Word {
                    self.consume();
                }
                Ok(Some(kind))
            },
            Reach::Limit => Err(invalid(long)),
            Reach::End => if self.open {
                Err(starving())
            } else if broken {
                Err(invalid("unterminated PGN tag or comment"))
            } else {
                Ok(Some(kind))
            },
        }
    }

    /// Reads the token of kind `kind` that goes on to what `stop` names.
    fn scan(&mut self, stop: Stop, limit: usize, kind: Token, long: &str, broken: bool) -> (r:
        Result<Option<Token>, Error>)
        requires
            old(self).wf(),
            old(self)@.token.len() <= limit < usize::MAX,
        ensures
            final(self).wf(),
            final(self).source() == old(self).source(),
            ({
                let lexed = delimited(
                    old(self)@.token,
                    old(self)@.rest,
                    text::find(old(self)@.rest, stop.ends(), 0),
                    if kind == Token::Word {
                        0
                    } else {
                        1
                    },
                    limit as int,
                    kind,
                    long@,
                    end_of_input(old(self)@.open, kind, broken),
                );
                &&& error::agrees(r, lexed.kind)
                &&& final(self)@ == (Reader { rest: lexed.rest, token: lexed.text, ..old(self)@ })
            }),
    {
        let ghost s = self@.rest;
        let reach = self.until(stop, limit);
        let r = self.ended(reach, kind, long, broken);
        proof {
            let e = text::find(s, stop.ends(), 0);
            if e < s.len() {
                assert(s.skip(e).skip(1) =~= s.skip(e + 1));
                assert(s.skip(e) =~= s.skip(e + 0));
            } else {
                assert(s.skip(s.len() as int) =~= seq![]);
                assert(s.take(s.len() as int) =~= s);
            }
        }
        r
    }

    /// Reads the tag that goes on to its closing bracket.
    fn scan_tag(&mut self) -> (r: Result<Option<Token>, Error>)
        requires
            old(self).wf(),
            old(self)@.token.len() == 0,
        ensures
            final(self).wf(),
            final(self).source() == old(self).source(),
            ({
                let lexed = delimited(
                    seq![],
                    old(self)@.rest,
                    tag_end(old(self)@.rest, 0, false, false),
                    1,
                    MAX_TOKEN as int,
                    Token::Tag,
                    "PGN token exceeds 1 MiB"@,
                    end_of_input(old(self)@.open, Token::Tag, true),
                );
                &&& error::agrees(r, lexed.kind)
                &&& final(self)@ == (Reader { rest: lexed.rest, token: lexed.text, ..old(self)@ })
            }),
    {
        let ghost s = self@.rest;
        let reach = self.until_bracket();
        let r = self.ended(reach, Token::Tag, "PGN token exceeds 1 MiB", true);
        proof {
            let none: Seq<u8> = seq![];
            let e = tag_end(s, 0, false, false);
            let room = MAX_TOKEN + 1;
            assert(none + s.take(room) =~= s.take(room));
            assert(none + s.take(e) =~= s.take(e));
            if e < s.len() {
                assert(s.skip(e).skip(1) =~= s.skip(e + 1));
            } else {
                assert(s.skip(s.len() as int) =~= none);
                assert(s.take(s.len() as int) =~= none + s);
            }
        }
        r
    }

    /// Skips white space.
    fn skip_blank(&mut self)
        requires
            old(self).wf(),
        ensures
            final(self).wf(),
            final(self).source() == old(self).source(),
            final(self)@ == (Reader {
                rest: old(self)@.rest.skip(text::find(old(self)@.rest, solid(), 0)),
                ..old(self)@
            }),
    {
        let ghost s = self@.rest;
        let ghost mut n: int = 0;
        assert(s.skip(0) =~= s);
        while self.pos < self.input.len() && is_blank(self.input[self.pos])
            invariant
                self.wf(),
                self.source() == old(self).source(),
                s == old(self)@.rest,
                0 <= n <= s.len(),
                text::find(s, solid(), 0) == text::find(s, solid(), n),
                self@ == (Reader { rest: s.skip(n), ..old(self)@ }),
            decreases self.input.len() - self.pos,
        {
            assert(self@.rest.len() > 0);
            assert(self.input@[self.pos as int] == self@.rest[0]);
            self.consume();
            proof {
                n = n + 1;
                assert(s.skip(n) =~= s.skip(n - 1).skip(1));
            }
        }
        if self.pos < self.input.len() {
            assert(self@.rest.len() > 0);
            assert(self.input@[self.pos as int] == self@.rest[0]);
        } else {
            assert(self@.rest.len() == 0);
        }
    }

    /// Reads a tag, a comment, the mark of a variation, or a word of the move text.
    pub fn token(&mut self) -> (r: Result<Option<Token>, Error>)
        requires
            old(self).wf(),
        ensures
            final(self).wf(),
            final(self).source() == old(self).source(),
            error::agrees(r, old(self)@.kind()),
            final(self)@ == old(self)@.next(),
    {
        if self.pending_tag {
            self.pending_tag = false;
            return Ok(Some(Token::Tag));
        }
        self.token.clear();
        self.skip_blank();
        let ghost t = self@.rest;
        if self.pos >= self.input.len() {
            assert(t =~= seq![]);
            return if self.open {
                Err(starving())
            } else {
                Ok(None)
            };
        }
        let first = self.input[self.pos];
        assert(t.len() > 0);
        assert(first == t[0]);
        self.consume();
        if first == 0x28 {
            Ok(Some(Token::Open))
        } else if first == 0x29 {
            Ok(Some(Token::Close))
        } else if first == 0x5b {
            self.scan_tag()
        } else if first == 0x7b {
            self.scan(Stop::Brace, MAX_TOKEN, Token::Comment, "PGN token exceeds 1 MiB", true)
        } else if first == 0x3b || first == 0x25 {
            self.scan(Stop::Line, MAX_TOKEN, Token::Comment, "PGN comment exceeds 1 MiB", false)
        } else {
            self.token.push(first);
            assert(self@.token =~= seq![first]);
            let long = "PGN move token exceeds 4096 bytes";
            self.scan(Stop::Word, MAX_WORD, Token::Word, long, false)
        }
    }
}

/// What comes of a token of kind `kind` at the end of the input.
spec fn end_of_input(open: bool, kind: Token, broken: bool) -> Result<
    Option<Token>,
    (ErrorKind, Seq<char>),
> {
    if open {
        Err(starved())
    } else if broken {
        Err(error::bad("unterminated PGN tag or comment"@))
    } else {
        Ok(Some(kind))
    }
}

proof fn lemma_tag_end(s: Seq<u8>, i: int, quoted: bool, escaped: bool)
    requires
        0 <= i <= s.len(),
    ensures
        i <= tag_end(s, i, quoted, escaped) <= s.len(),
    decreases s.len() - i,
{
    if i < s.len() {
        let now = if s[i] == 0x22 && !escaped {
            !quoted
        } else {
            quoted
        };
        lemma_tag_end(s, i + 1, now, s[i] == 0x5c && !escaped);
    }
}

/// A token uses some input, and so does a broken one.
pub proof fn lemma_token_uses_input(r: Reader)
    requires
        !r.pending,
        r.kind() != Ok::<Option<Token>, (ErrorKind, Seq<char>)>(None),
        r.kind() != Err::<Option<Token>, (ErrorKind, Seq<char>)>(starved()),
    ensures
        r.next().rest.len() < r.rest.len(),
{
    let s = r.rest;
    text::lemma_find(s, solid(), 0);
    let t = s.skip(text::find(s, solid(), 0));
    let u = t.skip(1);
    if t.len() > 0 {
        lemma_tag_end(u, 0, false, false);
        text::lemma_find(u, text::only(0x7du8), 0);
        text::lemma_find(u, line_end(), 0);
        text::lemma_find(u, word_end(), 0);
    }
}

/// A token leaves no more input than there was.
pub proof fn lemma_rest_shrinks(r: Reader)
    ensures
        r.next().rest.len() <= r.rest.len(),
{
    if !r.pending && r.kind() != Ok::<Option<Token>, (ErrorKind, Seq<char>)>(None) && r.kind()
        != Err::<Option<Token>, (ErrorKind, Seq<char>)>(starved()) {
        lemma_token_uses_input(r);
    }
}

/// Whether a word of the move text is the result of a game.
pub open spec fn is_ending(word: Seq<char>) -> bool {
    word == "1-0"@ || word == "0-1"@ || word == "1/2-1/2"@ || word == "*"@
}

/// Whether `word` is the result of a game.
pub fn is_result(word: &[char]) -> (r: bool)
    ensures
        r == is_ending(word@),
{
    text::is_word(word, "1-0") || text::is_word(word, "0-1") || text::is_word(word, "1/2-1/2")
        || text::is_word(word, "*")
}

/// Where reading goes on after a game that could not be read: at the next tag with the name of an
/// event, or after the next result. The flag says whether there is such a place.
pub open spec fn recovered(r: Reader) -> (Result<bool, (ErrorKind, Seq<char>)>, Reader)
    decreases r.rest.len(),
    via recovered_decreases
{
    if r.pending {
        (Ok(true), r)
    } else {
        let n = r.next();
        match r.kind() {
            Err(e) => (Err(e), n),
            Ok(None) => (Ok(false), n),
            Ok(Some(kind)) => {
                if kind == Token::Tag && text::starts(text::latin(n.token), "Event "@) {
                    (Ok(true), Reader { pending: true, ..n })
                } else if kind == Token::Word && is_ending(text::latin(n.token)) {
                    (Ok(true), n)
                } else {
                    recovered(n)
                }
            },
        }
    }
}

#[via_fn]
proof fn recovered_decreases(r: Reader) {
    if !r.pending && (r.kind() matches Ok(Some(_))) {
        lemma_token_uses_input(r);
    }
}

/// What is left of the beginning of some input without a byte order mark.
pub open spec fn unmarked(s: Seq<u8>) -> Seq<u8> {
    if s.len() >= 3 && s[0] == 0xef && s[1] == 0xbb && s[2] == 0xbf {
        s.skip(3)
    } else {
        s
    }
}

impl Pgn {
    /// A reader whose input begins with `input`. A byte order mark is skipped. More input may
    /// follow.
    pub fn new(input: Vec<u8>) -> (r: Pgn)
        ensures
            r.wf(),
            r@.rest == unmarked(input@),
            r@.open,
            r@.token.len() == 0,
            !r@.pending,
    {
        let mark = input.len() >= 3 && input[0] == 0xef && input[1] == 0xbb && input[2] == 0xbf;
        let pos: usize = if mark {
            3
        } else {
            0
        };
        let r = Pgn { input, pos, open: true, token: Vec::new(), pending_tag: false };
        assert(r.input@.skip(0) =~= r.input@);
        r
    }

    /// Adds input.
    pub fn feed(&mut self, more: &[u8])
        requires
            old(self).wf(),
        ensures
            final(self).wf(),
            final(self)@ == (Reader { rest: old(self)@.rest + more@, ..old(self)@ }),
    {
        let mut input: Vec<u8> = Vec::new();
        input.extend_from_slice(slice_subrange(self.input.as_slice(), self.pos, self.input.len()));
        assert(input@ =~= old(self)@.rest);
        input.extend_from_slice(more);
        self.input = input;
        self.pos = 0;
        assert(self@.rest =~= old(self)@.rest + more@);
    }

    /// Drops the input that has not been used.
    pub fn drop_rest(&mut self)
        requires
            old(self).wf(),
        ensures
            final(self).wf(),
            final(self)@ == (Reader { rest: seq![], pending: false, ..old(self)@ }),
    {
        self.pos = self.input.len();
        self.pending_tag = false;
        assert(self@.rest =~= seq![]);
    }

    /// Says that no input follows.
    pub fn close(&mut self)
        requires
            old(self).wf(),
        ensures
            final(self).wf(),
            final(self).source() == old(self).source(),
            final(self)@ == (Reader { open: false, ..old(self)@ }),
    {
        self.open = false;
    }

    /// How many bytes of the input have not been used.
    pub fn remaining(&self) -> (n: usize)
        requires
            self.wf(),
        ensures
            n == self@.rest.len(),
    {
        self.input.len() - self.pos
    }

    /// What the last token says.
    pub fn said(&self) -> (r: &[u8])
        ensures
            r@ == self@.token,
    {
        self.token.as_slice()
    }

    /// Lets the last token, a tag, come once more.
    pub fn repeat_tag(&mut self)
        requires
            old(self).wf(),
        ensures
            final(self).wf(),
            final(self).source() == old(self).source(),
            final(self)@ == (Reader { pending: true, ..old(self)@ }),
    {
        self.pending_tag = true;
    }

    /// Finds the place where reading goes on after a game that could not be read.
    pub fn recover(&mut self) -> (r: Result<bool, Error>)
        requires
            old(self).wf(),
        ensures
            final(self).wf(),
            final(self).source() == old(self).source(),
            error::agrees(r, recovered(old(self)@).0),
            final(self)@ == recovered(old(self)@).1,
    {
        if self.pending_tag {
            return Ok(true);
        }
        loop
            invariant
                self.wf(),
                self.source() == old(self).source(),
                !self@.pending,
                recovered(old(self)@) == recovered(self@),
            decreases self@.rest.len(),
        {
            let ghost before = self@;
            proof {
                if before.kind() matches Ok(Some(_)) {
                    lemma_token_uses_input(before);
                }
            }
            let kind = match self.token() {
                Ok(Some(kind)) => kind,
                Ok(None) => {
                    return Ok(false);
                },
                Err(e) => {
                    return Err(e);
                },
            };
            if kind == Token::Tag {
                if text::starts_with(text::latin_chars(self.token.as_slice()).as_slice(), "Event ") {
                    self.pending_tag = true;
                    return Ok(true);
                }
            } else if kind == Token::Word {
                if is_result(text::latin_chars(self.token.as_slice()).as_slice()) {
                    return Ok(true);
                }
            }
        }
    }
}

proof fn lemma_tag_end_more(s: Seq<u8>, more: Seq<u8>, i: int, quoted: bool, escaped: bool)
    requires
        0 <= i <= s.len(),
    ensures
        tag_end(s, i, quoted, escaped) < s.len() ==> tag_end(s + more, i, quoted, escaped)
            == tag_end(s, i, quoted, escaped),
        tag_end(s, i, quoted, escaped) == s.len() ==> tag_end(s + more, i, quoted, escaped)
            >= s.len(),
    decreases s.len() - i,
{
    if i < s.len() {
        assert((s + more)[i] == s[i]);
        let now = if s[i] == 0x22 && !escaped {
            !quoted
        } else {
            quoted
        };
        lemma_tag_end_more(s, more, i + 1, now, s[i] == 0x5c && !escaped);
    } else {
        lemma_tag_end(s + more, i, quoted, escaped);
    }
}

proof fn lemma_delimited_more(
    start: Seq<u8>,
    s: Seq<u8>,
    more: Seq<u8>,
    e: int,
    f: int,
    after: int,
    limit: int,
    kind: Token,
    long: Seq<char>,
    end: Result<Option<Token>, (ErrorKind, Seq<char>)>,
)
    requires
        0 <= e <= s.len(),
        e < s.len() ==> f == e,
        e == s.len() ==> f >= s.len(),
        0 <= after <= 1,
        start.len() <= limit,
        delimited(start, s, e, after, limit, kind, long, Err(starved())).kind != Err::<
            Option<Token>,
            (ErrorKind, Seq<char>),
        >(starved()),
    ensures
        ({
            let a = delimited(start, s, e, after, limit, kind, long, Err(starved()));
            let b = delimited(start, s + more, f, after, limit, kind, long, end);
            b.kind == a.kind && b.text == a.text && b.rest == a.rest + more
        }),
{
    let room = limit + 1 - start.len();
    let n = if e >= room {
        room
    } else {
        e
    };
    assert((s + more).take(n) =~= s.take(n));
    assert((s + more).skip(n) =~= s.skip(n) + more);
    if e < room {
        assert((s + more).skip(n + after) =~= s.skip(n + after) + more);
    }
}

/// A token that was read stays the same whatever input follows.
pub proof fn law_token_is_final(r: Reader, more: Seq<u8>, open: bool)
    requires
        r.open,
        r.kind() != Err::<Option<Token>, (ErrorKind, Seq<char>)>(starved()),
    ensures
        ({
            let longer = Reader { rest: r.rest + more, open, ..r };
            &&& longer.kind() == r.kind()
            &&& longer.next() == (Reader { rest: r.next().rest + more, open, ..r.next() })
            &&& r.kind() != Ok::<Option<Token>, (ErrorKind, Seq<char>)>(None)
        }),
{
    if !r.pending {
        let s = r.rest;
        text::lemma_find(s, solid(), 0);
        text::lemma_find_more(s, more, solid(), 0);
        let a = text::find(s, solid(), 0);
        let t = s.skip(a);
        let u = t.skip(1);
        assert((s + more).skip(a) =~= t + more);
        assert((t + more).skip(1) =~= u + more);
        let none: Seq<u8> = seq![];
        let broken = if open {
            Err(starved())
        } else {
            Err(error::bad("unterminated PGN tag or comment"@))
        };
        let comment = if open {
            Err(starved())
        } else {
            Ok(Some(Token::Comment))
        };
        let word = if open {
            Err(starved())
        } else {
            Ok(Some(Token::Word))
        };
        let limit = MAX_TOKEN as int;
        if t[0] == 0x28 || t[0] == 0x29 {
        } else if t[0] == 0x5b {
            lemma_tag_end(u, 0, false, false);
            lemma_tag_end_more(u, more, 0, false, false);
            let e = tag_end(u, 0, false, false);
            let f = tag_end(u + more, 0, false, false);
            let long = "PGN token exceeds 1 MiB"@;
            lemma_delimited_more(none, u, more, e, f, 1, limit, Token::Tag, long, broken);
        } else if t[0] == 0x7b {
            let p = text::only(0x7du8);
            text::lemma_find(u, p, 0);
            text::lemma_find_more(u, more, p, 0);
            let (e, f) = (text::find(u, p, 0), text::find(u + more, p, 0));
            let long = "PGN token exceeds 1 MiB"@;
            lemma_delimited_more(none, u, more, e, f, 1, limit, Token::Comment, long, broken);
        } else if t[0] == 0x3b || t[0] == 0x25 {
            text::lemma_find(u, line_end(), 0);
            text::lemma_find_more(u, more, line_end(), 0);
            let (e, f) = (text::find(u, line_end(), 0), text::find(u + more, line_end(), 0));
            let long = "PGN comment exceeds 1 MiB"@;
            lemma_delimited_more(none, u, more, e, f, 1, limit, Token::Comment, long, comment);
        } else {
            text::lemma_find(u, word_end(), 0);
            text::lemma_find_more(u, more, word_end(), 0);
            let (e, f) = (text::find(u, word_end(), 0), text::find(u + more, word_end(), 0));
            let long = "PGN move token exceeds 4096 bytes"@;
            let (l, w) = (MAX_WORD as int, Token::Word);
            lemma_delimited_more(seq![t[0]], u, more, e, f, 0, l, w, long, word);
        }
    }
}

/// The place where reading goes on stays the same whatever input follows.
pub proof fn law_recovery_is_final(r: Reader, more: Seq<u8>, open: bool)
    requires
        r.open,
        recovered(r).0 != Err::<bool, (ErrorKind, Seq<char>)>(starved()),
    ensures
        ({
            let longer = Reader { rest: r.rest + more, open, ..r };
            let after = recovered(r).1;
            &&& recovered(longer).0 == recovered(r).0
            &&& recovered(longer).1 == (Reader { rest: after.rest + more, open, ..after })
        }),
    decreases r.rest.len(),
{
    if !r.pending {
        law_token_is_final(r, more, open);
        if r.kind() is Ok {
            lemma_token_uses_input(r);
            let n = r.next();
            let kind = r.kind()->Ok_0->0;
            if !(kind == Token::Tag && text::starts(text::latin(n.token), "Event "@)) && !(kind
                == Token::Word && is_ending(text::latin(n.token))) {
                law_recovery_is_final(n, more, open);
            }
        }
    }
}

/// A place in the input of a reader, to come back to.
pub struct Mark {
    pos: usize,
    token: Vec<u8>,
    pending_tag: bool,
}

impl Mark {
    /// Whether the mark is a place in the input `source`, at which the reader is `at`.
    pub closed spec fn marks(&self, source: Seq<u8>, at: Reader) -> bool {
        &&& self.pos <= source.len()
        &&& at.rest == source.skip(self.pos as int)
        &&& at.token == self.token@
        &&& at.pending == self.pending_tag
    }
}

impl Pgn {
    /// Marks the present place.
    pub(crate) fn mark(&self) -> (m: Mark)
        requires
            self.wf(),
        ensures
            m.marks(self.source(), self@),
    {
        let mut token: Vec<u8> = Vec::new();
        token.extend_from_slice(self.token.as_slice());
        assert(token@ =~= self.token@);
        Mark { pos: self.pos, token, pending_tag: self.pending_tag }
    }

    /// Goes back to a place that was marked.
    pub(crate) fn go_back(&mut self, mark: Mark, Ghost(at): Ghost<Reader>)
        requires
            old(self).wf(),
            mark.marks(old(self).source(), at),
        ensures
            final(self).wf(),
            final(self).source() == old(self).source(),
            final(self)@ == (Reader { open: old(self)@.open, ..at }),
    {
        self.pos = mark.pos;
        self.token = mark.token;
        self.pending_tag = mark.pending_tag;
    }
}

/// A byte order mark at the beginning of the input is left out, and nothing else is.
pub proof fn law_byte_order_mark_is_left_out(s: Seq<u8>)
    ensures
        unmarked(seq![0xefu8, 0xbb, 0xbf] + s) == s,
        s.len() < 3 || s.take(3) != seq![0xefu8, 0xbb, 0xbf] ==> unmarked(s) == s,
{
    assert((seq![0xefu8, 0xbb, 0xbf] + s).skip(3) =~= s);
    if s.len() >= 3 && s[0] == 0xef && s[1] == 0xbb && s[2] == 0xbf {
        assert(s.take(3) =~= seq![0xefu8, 0xbb, 0xbf]);
    }
}

} // verus!
